//! Finite sets and maps keyed by the small numeric identifiers of the IR.
//!
//! Both collections remember insertion order, so walking one is deterministic.

use vstd::prelude::*;

verus! {

/// A numeric identifier: a value that is determined by one `u32`.
pub trait Id: Copy + Sized {
    /// The number behind the identifier.
    spec fn key(self) -> u32;

    /// Two identifiers with the same number are the same identifier.
    proof fn key_injective(a: Self, b: Self)
        requires
            a.key() == b.key(),
        ensures
            a == b,
    ;

    /// Reads the number behind the identifier.
    fn raw(self) -> (r: u32)
        ensures
            r == self.key(),
    ;
}

impl Id for u32 {
    open spec fn key(self) -> u32 {
        self
    }

    proof fn key_injective(a: Self, b: Self) {
    }

    fn raw(self) -> (r: u32) {
        self
    }
}

/// Are the two identifiers equal?
pub fn same_id<K: Id>(a: K, b: K) -> (r: bool)
    ensures
        r == (a == b),
{
    let r = a.raw() == b.raw();
    proof {
        if r {
            K::key_injective(a, b);
        }
    }
    r
}

/// Where `k` first occurs in `items`, if it does.
pub fn position_of<K: Id>(items: &Vec<K>, k: K) -> (r: Option<usize>)
    ensures
        match r {
            Some(i) => i < items.len() && items@[i as int] == k && forall|j: int|
                0 <= j < i ==> items@[j] != k,
            None => !items@.contains(k),
        },
{
    let mut i: usize = 0;
    while i < items.len()
        invariant
            i <= items.len(),
            forall|j: int| 0 <= j < i ==> items@[j] != k,
        decreases items.len() - i,
    {
        if same_id(items[i], k) {
            return Some(i);
        }
        i = i + 1;
    }
    None
}

/// Does `k` occur in `items`?
pub fn list_contains<K: Id>(items: &Vec<K>, k: K) -> (r: bool)
    ensures
        r == items@.contains(k),
{
    match position_of(items, k) {
        Some(_) => true,
        None => false,
    }
}

/// Copies a list of identifiers.
pub fn copy_list<K: Id>(items: &Vec<K>) -> (r: Vec<K>)
    ensures
        r@ == items@,
{
    let mut out: Vec<K> = Vec::new();
    let mut i: usize = 0;
    while i < items.len()
        invariant
            i <= items.len(),
            out@ == items@.take(i as int),
        decreases items.len() - i,
    {
        out.push(items[i]);
        proof {
            assert(items@.take(i + 1) =~= items@.take(i as int).push(items@[i as int]));
        }
        i = i + 1;
    }
    proof {
        assert(items@.take(items@.len() as int) =~= items@);
    }
    out
}

/// Puts `extra` behind `items`.
pub fn extend_list<K: Id>(items: &mut Vec<K>, extra: &Vec<K>)
    ensures
        final(items)@ == old(items)@ + extra@,
{
    let mut i: usize = 0;
    while i < extra.len()
        invariant
            i <= extra.len(),
            items@ == old(items)@ + extra@.take(i as int),
        decreases extra.len() - i,
    {
        items.push(extra[i]);
        proof {
            assert(extra@.take(i + 1) =~= extra@.take(i as int).push(extra@[i as int]));
            assert(items@ =~= old(items)@ + extra@.take(i + 1));
        }
        i = i + 1;
    }
    proof {
        assert(extra@.take(extra@.len() as int) =~= extra@);
    }
}

/// A finite set of identifiers.
#[derive(Debug)]
pub struct IdSet<K: Id> {
    items: Vec<K>,
}

impl<K: Id> View for IdSet<K> {
    type V = Set<K>;

    closed spec fn view(&self) -> Set<K> {
        self.items@.to_set()
    }
}

impl<K: Id> IdSet<K> {
    #[verifier::type_invariant]
    spec fn no_repeats(self) -> bool {
        self.items@.no_duplicates()
    }

    /// The members in the order in which they were added.
    pub closed spec fn order(&self) -> Seq<K> {
        self.items@
    }

    /// The set without members.
    pub fn new() -> (r: Self)
        ensures
            r@ == Set::<K>::empty(),
            r.order() == Seq::<K>::empty(),
    {
        let r = IdSet { items: Vec::new() };
        proof {
            assert(r@ =~= Set::<K>::empty());
        }
        r
    }

    /// Is `k` a member?
    pub fn contains(&self, k: &K) -> (r: bool)
        ensures
            r == self@.contains(*k),
    {
        list_contains(&self.items, *k)
    }

    /// Adds `k`; says whether it was missing.
    pub fn insert(&mut self, k: K) -> (added: bool)
        ensures
            added == !old(self)@.contains(k),
            final(self)@ == old(self)@.insert(k),
            final(self).order() == if added {
                old(self).order().push(k)
            } else {
                old(self).order()
            },
    {
        proof {
            use_type_invariant(&*self);
        }
        if list_contains(&self.items, k) {
            proof {
                assert(self@ =~= self@.insert(k));
            }
            return false;
        }
        let mut items: Vec<K> = Vec::new();
        std::mem::swap(&mut items, &mut self.items);
        let ghost before = items@;
        items.push(k);
        proof {
            assert(items@.to_set() =~= before.to_set().insert(k)) by {
                assert forall|x: K| items@.to_set().contains(x) == before.to_set().insert(
                    k,
                ).contains(x) by {
                    if before.contains(x) {
                        let i = before.index_of(x);
                        assert(items@[i] == x);
                    }
                    if x == k {
                        assert(items@[before.len() as int] == x);
                    }
                }
            }
        }
        self.items = items;
        true
    }

    /// How many members there are.
    pub fn len(&self) -> (r: usize)
        ensures
            r == self@.len(),
            r == self.order().len(),
            self@.finite(),
    {
        proof {
            use_type_invariant(self);
            self.items@.unique_seq_to_set();
        }
        self.items.len()
    }

    /// Is there no member?
    pub fn is_empty(&self) -> (r: bool)
        ensures
            r == (self@ == Set::<K>::empty()),
            r == (self.order().len() == 0),
    {
        let r = self.items.len() == 0;
        proof {
            if r {
                assert(self@ =~= Set::<K>::empty());
            } else {
                assert(self@.contains(self.items@[0]));
            }
        }
        r
    }

    /// The members as a list.
    pub fn items(&self) -> (r: &Vec<K>)
        ensures
            r@ == self.order(),
            r@.to_set() == self@,
            r@.no_duplicates(),
    {
        proof {
            use_type_invariant(self);
        }
        &self.items
    }

    /// What is known of the order of the members.
    pub proof fn order_facts(&self)
        ensures
            self.order().to_set() == self@,
            self@.finite(),
    {
        vstd::seq_lib::seq_to_set_is_finite(self.items@);
    }

    /// The set of what `list` holds, in the order of first occurrence.
    pub fn from_list(list: &Vec<K>) -> (r: Self)
        ensures
            r@ == list@.to_set(),
    {
        let mut out: IdSet<K> = IdSet::new();
        let mut i: usize = 0;
        proof {
            assert(list@.take(0).to_set() =~= Set::<K>::empty());
        }
        while i < list.len()
            invariant
                i <= list.len(),
                out@ == list@.take(i as int).to_set(),
            decreases list.len() - i,
        {
            let added: bool = out.insert(list[i]);
            proof {
                lemma_take_to_set(list@, i as int);
            }
            i = i + 1;
        }
        proof {
            assert(list@.take(list@.len() as int) =~= list@);
        }
        out
    }

    /// A copy of the set, in the same order.
    pub fn copied(&self) -> (r: Self)
        ensures
            r@ == self@,
            r.order() == self.order(),
    {
        proof {
            use_type_invariant(self);
        }
        IdSet { items: copy_list(&self.items) }
    }

    /// The members that `other` has too, in the order of this set.
    pub fn intersection(&self, other: &Self) -> (r: Self)
        ensures
            r@ == self@.intersect(other@),
    {
        let mut out: IdSet<K> = IdSet::new();
        let mut i: usize = 0;
        proof {
            assert(Set::<K>::empty() =~= self.items@.take(0).to_set().intersect(other@));
        }
        while i < self.items.len()
            invariant
                i <= self.items.len(),
                out@ == self.items@.take(i as int).to_set().intersect(other@),
            decreases self.items.len() - i,
        {
            let k = self.items[i];
            proof {
                lemma_take_to_set(self.items@, i as int);
            }
            if other.contains(&k) {
                let added: bool = out.insert(k);
            }
            proof {
                assert(out@ =~= self.items@.take(i + 1).to_set().intersect(other@));
            }
            i = i + 1;
        }
        proof {
            assert(self.items@.take(self.items@.len() as int) =~= self.items@);
        }
        out
    }

    /// Do both sets have the same members?
    pub fn equals(&self, other: &Self) -> (r: bool)
        ensures
            r == (self@ == other@),
    {
        proof {
            use_type_invariant(self);
            use_type_invariant(other);
            self.items@.unique_seq_to_set();
            other.items@.unique_seq_to_set();
            vstd::seq_lib::seq_to_set_is_finite(self.items@);
            vstd::seq_lib::seq_to_set_is_finite(other.items@);
        }
        if self.items.len() != other.items.len() {
            return false;
        }
        let mut i: usize = 0;
        while i < self.items.len()
            invariant
                i <= self.items.len(),
                forall|j: int| 0 <= j < i ==> other@.contains(#[trigger] self.items@[j]),
            decreases self.items.len() - i,
        {
            if !other.contains(&self.items[i]) {
                proof {
                    assert(self@.contains(self.items@[i as int]));
                }
                return false;
            }
            i = i + 1;
        }
        proof {
            assert(self@.subset_of(other@));
            vstd::set_lib::lemma_subset_equality(self@, other@);
        }
        true
    }
}

/// Taking one element more adds that element to the set of those taken.
pub proof fn lemma_take_to_set<K>(s: Seq<K>, i: int)
    requires
        0 <= i < s.len(),
    ensures
        s.take(i + 1).to_set() == s.take(i).to_set().insert(s[i]),
{
    let a = s.take(i + 1);
    let b = s.take(i);
    assert forall|x: K| a.to_set().contains(x) == b.to_set().insert(s[i]).contains(x) by {
        if a.contains(x) {
            let j = a.index_of(x);
            if j < i {
                assert(b[j] == x);
            }
        }
        if b.contains(x) {
            let j = b.index_of(x);
            assert(a[j] == x);
        }
        assert(a[i] == s[i]);
    }
    assert(a.to_set() =~= b.to_set().insert(s[i]));
}

/// A finite map from identifiers to values.
#[derive(Debug)]
pub struct IdMap<K: Id, V> {
    ids: Vec<K>,
    vals: Vec<V>,
}

impl<K: Id, V> View for IdMap<K, V> {
    type V = Map<K, V>;

    closed spec fn view(&self) -> Map<K, V> {
        Map::new(
            |k: K| self.ids@.contains(k),
            |k: K| self.vals@[self.ids@.index_of(k)],
        )
    }
}

impl<K: Id, V> IdMap<K, V> {
    #[verifier::type_invariant]
    spec fn paired(self) -> bool {
        self.ids@.no_duplicates() && self.ids@.len() == self.vals@.len()
    }

    /// The keys in the order in which they were first added.
    pub closed spec fn order(&self) -> Seq<K> {
        self.ids@
    }

    /// The map without keys.
    pub fn new() -> (r: Self)
        ensures
            r@ == Map::<K, V>::empty(),
            r.order() == Seq::<K>::empty(),
    {
        let r = IdMap { ids: Vec::new(), vals: Vec::new() };
        proof {
            assert(r@ =~= Map::<K, V>::empty());
        }
        r
    }

    /// What `k` is mapped to.
    pub fn get(&self, k: &K) -> (r: Option<&V>)
        ensures
            match r {
                Some(v) => self@.contains_key(*k) && *v == self@[*k],
                None => !self@.contains_key(*k),
            },
    {
        proof {
            use_type_invariant(self);
        }
        match position_of(&self.ids, *k) {
            Some(i) => Some(&self.vals[i]),
            None => None,
        }
    }

    /// Is `k` mapped to anything?
    pub fn contains_key(&self, k: &K) -> (r: bool)
        ensures
            r == self@.contains_key(*k),
    {
        list_contains(&self.ids, *k)
    }

    /// Maps `k` to `v`, in place of what it was mapped to before.
    pub fn insert(&mut self, k: K, v: V)
        ensures
            final(self)@ == old(self)@.insert(k, v),
            final(self).order() == if old(self)@.contains_key(k) {
                old(self).order()
            } else {
                old(self).order().push(k)
            },
    {
        proof {
            use_type_invariant(&*self);
        }
        let ghost before = *self;
        let mut ids: Vec<K> = Vec::new();
        let mut vals: Vec<V> = Vec::new();
        let empty = IdMap { ids, vals };
        let mut held = empty;
        std::mem::swap(&mut held, self);
        let IdMap { ids: held_ids, vals: held_vals } = held;
        ids = held_ids;
        vals = held_vals;
        match position_of(&ids, k) {
            Some(i) => {
                vals.set(i, v);
                proof {
                    let m = IdMap { ids, vals };
                    assert forall|x: K| ids@.contains(x) implies m@[x] == before@.insert(k, v)[x] by {
                        let j = ids@.index_of(x);
                        if x != k {
                            assert(j != i);
                        }
                    }
                    assert(m@ =~= before@.insert(k, v));
                }
            },
            None => {
                let ghost ids0 = ids@;
                let ghost vals0 = vals@;
                ids.push(k);
                vals.push(v);
                proof {
                    let m = IdMap { ids, vals };
                    assert forall|x: K| ids@.contains(x) == (ids0.contains(x) || x == k) by {
                        if ids0.contains(x) {
                            assert(ids@[ids0.index_of(x)] == x);
                        }
                        assert(ids@[ids0.len() as int] == k);
                    }
                    assert forall|x: K| ids@.contains(x) implies m@[x] == before@.insert(k, v)[x] by {
                        let j = ids@.index_of(x);
                        if x != k {
                            assert(ids0[ids0.index_of(x)] == x);
                            assert(ids@[ids0.index_of(x)] == x);
                            assert(j == ids0.index_of(x));
                        } else {
                            assert(j == ids0.len());
                        }
                    }
                    assert(m@ =~= before@.insert(k, v));
                }
            },
        }
        *self = IdMap { ids, vals };
    }

    /// How many keys there are.
    pub fn len(&self) -> (r: usize)
        ensures
            r == self@.dom().len(),
            self@.dom().finite(),
    {
        proof {
            use_type_invariant(self);
            self.ids@.unique_seq_to_set();
            vstd::seq_lib::seq_to_set_is_finite(self.ids@);
            assert(self@.dom() =~= self.ids@.to_set());
        }
        self.ids.len()
    }

    /// Is there no key?
    pub fn is_empty(&self) -> (r: bool)
        ensures
            r == (self@ == Map::<K, V>::empty()),
    {
        let r = self.ids.len() == 0;
        proof {
            if r {
                assert(self@ =~= Map::<K, V>::empty());
            } else {
                assert(self@.contains_key(self.ids@[0]));
            }
        }
        r
    }

    /// The keys as a list.
    pub fn keys(&self) -> (r: &Vec<K>)
        ensures
            r@ == self.order(),
            r@.to_set() == self@.dom(),
            r@.no_duplicates(),
    {
        proof {
            use_type_invariant(self);
            assert(self@.dom() =~= self.ids@.to_set());
        }
        &self.ids
    }
}

} // verus!
