//! Maps and sets kept in key order, so that what a walk over one yields is a
//! property of what it holds and never of how it was filled.

use vstd::prelude::*;
use crate::order::{Duplicate, Key, Order};

verus! {

/// Every entry comes strictly before every later one.
pub open spec fn ascending<K: Key>(keys: Seq<K::V>) -> bool {
    forall|i: int, j: int| 0 <= i < j < keys.len() ==> K::before(keys[i], keys[j])
}

/// The members of a set, in order.
pub open spec fn in_order<K: Key>(members: Set<K::V>) -> Seq<K::V> {
    choose|keys: Seq<K::V>| #[trigger] ascending::<K>(keys) && keys.to_set() == members
}

/// An ascending sequence repeats nothing.
pub proof fn ascending_is_distinct<K: Key>(keys: Seq<K::V>)
    requires
        ascending::<K>(keys),
    ensures
        keys.no_duplicates(),
{
    assert forall|i: int, j: int| 0 <= i < keys.len() && 0 <= j < keys.len() && i != j implies keys[i]
        != keys[j] by {
        K::before_irreflexive(keys[i]);
    }
}

/// There is only one way to write a set down in order.
pub proof fn ascending_is_unique<K: Key>(a: Seq<K::V>, b: Seq<K::V>)
    requires
        ascending::<K>(a),
        ascending::<K>(b),
        a.to_set() == b.to_set(),
    ensures
        a == b,
    decreases a.len(),
{
    if a.len() == 0 {
        if b.len() > 0 {
            assert(b.to_set().contains(b[0]));
            assert(a.to_set().contains(b[0]));
        }
        assert(a =~= b);
    } else {
        assert(a.to_set().contains(a[0]));
        assert(b.to_set().contains(a[0]));
        let i = choose|i: int| 0 <= i < b.len() && b[i] == a[0];
        assert(b.to_set().contains(b[0]));
        assert(a.to_set().contains(b[0]));
        let j = choose|j: int| 0 <= j < a.len() && a[j] == b[0];
        if i > 0 && j > 0 {
            K::before_transitive(a[0], a[j], a[0]);
            K::before_irreflexive(a[0]);
        }
        assert(a[0] == b[0]);
        ascending_is_distinct::<K>(a);
        ascending_is_distinct::<K>(b);
        let ra = a.drop_first();
        let rb = b.drop_first();
        assert forall|x: K::V| ra.to_set().contains(x) <==> rb.to_set().contains(x) by {
            if ra.contains(x) {
                let p = choose|p: int| 0 <= p < ra.len() && ra[p] == x;
                assert(a[p + 1] == x);
                assert(b.to_set().contains(x));
                let q = choose|q: int| 0 <= q < b.len() && b[q] == x;
                assert(rb[q - 1] == x);
            }
            if rb.contains(x) {
                let p = choose|p: int| 0 <= p < rb.len() && rb[p] == x;
                assert(b[p + 1] == x);
                assert(a.to_set().contains(x));
                let q = choose|q: int| 0 <= q < a.len() && a[q] == x;
                assert(ra[q - 1] == x);
            }
        }
        assert(ra.to_set() =~= rb.to_set());
        assert(ascending::<K>(ra)) by {
            assert forall|p: int, q: int| 0 <= p < q < ra.len() implies K::before(ra[p], ra[q]) by {
                assert(K::before(a[p + 1], a[q + 1]));
            }
        }
        assert(ascending::<K>(rb)) by {
            assert forall|p: int, q: int| 0 <= p < q < rb.len() implies K::before(rb[p], rb[q]) by {
                assert(K::before(b[p + 1], b[q + 1]));
            }
        }
        ascending_is_unique::<K>(ra, rb);
        assert(a =~= seq![a[0]] + ra);
        assert(b =~= seq![b[0]] + rb);
    }
}

proof fn insert_ascending<K: Key>(keys: Seq<K::V>, x: K::V) -> (longer: Seq<K::V>)
    requires
        ascending::<K>(keys),
        !keys.contains(x),
    ensures
        ascending::<K>(longer),
        longer.to_set() == keys.to_set().insert(x),
    decreases keys.len(),
{
    if keys.len() == 0 || K::before(keys.last(), x) {
        let longer = keys.push(x);
        assert forall|i: int, j: int| 0 <= i < j < longer.len() implies K::before(
            longer[i],
            longer[j],
        ) by {
            if j == keys.len() && i < keys.len() - 1 {
                K::before_transitive(keys[i], keys.last(), x);
            }
        }
        assert(longer.take(keys.len() as int) =~= keys);
        take_one_more(longer, keys.len() as int);
        assert(longer.take(keys.len() as int + 1) =~= longer);
        longer
    } else {
        let last = keys.last();
        K::before_total(last, x);
        assert(keys[keys.len() - 1] == last);
        let rest = keys.drop_last();
        assert(forall|y: K::V| rest.contains(y) ==> keys.contains(y)) by {
            assert forall|y: K::V| rest.contains(y) implies keys.contains(y) by {
                let j = rest.index_of(y);
                assert(keys[j] == y);
            }
        }
        let inner = insert_ascending::<K>(rest, x);
        let longer = inner.push(last);
        assert forall|i: int, j: int| 0 <= i < j < longer.len() implies K::before(
            longer[i],
            longer[j],
        ) by {
            if j == inner.len() {
                assert(inner.to_set().contains(inner[i]));
                if inner[i] != x {
                    assert(rest.to_set().contains(inner[i]));
                    let k = rest.index_of(inner[i]);
                    assert(K::before(keys[k], keys[keys.len() - 1]));
                }
            }
        }
        assert(longer.take(inner.len() as int) =~= inner);
        take_one_more(longer, inner.len() as int);
        assert(longer.take(inner.len() as int + 1) =~= longer);
        assert(keys.take(rest.len() as int) =~= rest);
        take_one_more(keys, rest.len() as int);
        assert(keys.take(rest.len() as int + 1) =~= keys);
        assert(longer.to_set() =~= keys.to_set().insert(x));
        longer
    }
}

/// Every finite set can be written down in order, and [`in_order`] does it.
pub proof fn in_order_lists<K: Key>(members: Set<K::V>)
    requires
        members.finite(),
    ensures
        ascending::<K>(in_order::<K>(members)),
        in_order::<K>(members).to_set() == members,
        in_order::<K>(members).no_duplicates(),
        in_order::<K>(members).len() == members.len(),
    decreases members.len(),
{
    if members.len() == 0 {
        let none = Seq::<K::V>::empty();
        assert(ascending::<K>(none) && none.to_set() =~= members);
    } else {
        let x = members.choose();
        let rest = members.remove(x);
        in_order_lists::<K>(rest);
        let keys = in_order::<K>(rest);
        assert(!keys.contains(x)) by {
            if keys.contains(x) {
                assert(keys.to_set().contains(x));
            }
        }
        let longer = insert_ascending::<K>(keys, x);
        assert(longer.to_set() =~= members);
        assert(ascending::<K>(longer) && longer.to_set() == members);
    }
    ascending_is_distinct::<K>(in_order::<K>(members));
    in_order::<K>(members).unique_seq_to_set();
}

/// Taking one more of a sequence adds that one to the set of what is taken.
pub proof fn take_one_more<A>(items: Seq<A>, i: int)
    requires
        0 <= i < items.len(),
    ensures
        items.take(i + 1) == items.take(i).push(items[i]),
        items.take(i + 1).to_set() == items.take(i).to_set().insert(items[i]),
{
    let before = items.take(i);
    let after = items.take(i + 1);
    assert(after =~= before.push(items[i]));
    assert forall|x: A| after.contains(x) implies before.contains(x) || x == items[i] by {
        let j = after.index_of(x);
        if j < i {
            assert(before[j] == x);
        }
    }
    assert forall|x: A| before.contains(x) implies after.contains(x) by {
        let j = before.index_of(x);
        assert(after[j] == x);
    }
    assert(after[i] == items[i]);
    assert(after.to_set() =~= before.to_set().insert(items[i]));
}

/// Where a key stands in an ascending sequence, or would have to be put.
fn position<K: Key>(keys: &Vec<K>, key: &K) -> (at: Result<usize, usize>)
    requires
        ascending::<K>(keys.deep_view()),
    ensures
        match at {
            Ok(i) => i < keys@.len() && keys.deep_view()[i as int] == key.deep_view(),
            Err(i) => {
                &&& i <= keys@.len()
                &&& forall|j: int|
                    0 <= j < i ==> K::before(#[trigger] keys.deep_view()[j], key.deep_view())
                &&& forall|j: int|
                    i <= j < keys@.len() ==> K::before(
                        key.deep_view(),
                        #[trigger] keys.deep_view()[j],
                    )
            },
        },
{
    let ghost d = keys.deep_view();
    let ghost k = key.deep_view();
    let mut lo: usize = 0;
    let mut hi: usize = keys.len();
    while lo < hi
        invariant
            ascending::<K>(d),
            d == keys.deep_view(),
            k == key.deep_view(),
            d.len() == keys@.len(),
            lo <= hi <= keys@.len(),
            forall|j: int| 0 <= j < lo ==> K::before(#[trigger] d[j], k),
            forall|j: int| hi <= j < d.len() ==> K::before(k, #[trigger] d[j]),
        decreases hi - lo,
    {
        let mid: usize = lo + (hi - lo) / 2;
        assert(d[mid as int] == keys@[mid as int].deep_view());
        match keys[mid].order(key) {
            Order::Same => {
                return Ok(mid);
            },
            Order::Before => {
                assert forall|j: int| 0 <= j < mid + 1 implies K::before(#[trigger] d[j], k) by {
                    if j < mid {
                        K::before_transitive(d[j], d[mid as int], k);
                    }
                }
                lo = mid + 1;
            },
            Order::After => {
                assert forall|j: int| mid <= j < d.len() implies K::before(k, #[trigger] d[j]) by {
                    if j > mid {
                        K::before_transitive(k, d[mid as int], d[j]);
                    }
                }
                hi = mid;
            },
        }
    }
    Err(lo)
}

/// A map kept in key order.
#[derive(Debug)]
pub struct SortedMap<K: Key, V: DeepView> {
    names: Vec<K>,
    values: Vec<V>,
}

impl<K: Key, V: DeepView> DeepView for SortedMap<K, V> {
    type V = Map<K::V, V::V>;

    closed spec fn deep_view(&self) -> Map<K::V, V::V> {
        Map::new(
            |k: K::V| self.keys().contains(k),
            |k: K::V| self.values@[self.keys().index_of(k)].deep_view(),
        )
    }
}

impl<K: Key, V: DeepView> SortedMap<K, V> {
    /// The keys, in the order a walk over the map meets them.
    pub closed spec fn keys(&self) -> Seq<K::V> {
        self.names.deep_view()
    }

    /// The value that the map holds under a key.
    pub closed spec fn held_under(&self, key: K::V) -> V {
        self.values@[self.keys().index_of(key)]
    }

    /// A map holds finitely many entries, each of them a value.
    pub proof fn is_finite(&self)
        ensures
            self.deep_view().dom().finite(),
            forall|key: K::V| #[trigger]
                self.deep_view().contains_key(key) ==> self.deep_view()[key] == self.held_under(
                    key,
                ).deep_view(),
    {
        assert(self.deep_view().dom() =~= self.keys().to_set());
    }

    #[verifier::type_invariant]
    spec fn well_formed(self) -> bool {
        &&& self.names@.len() == self.values@.len()
        &&& ascending::<K>(self.keys())
    }

    proof fn indexed(&self, i: int)
        requires
            ascending::<K>(self.keys()),
            0 <= i < self.keys().len(),
        ensures
            self.keys().index_of(self.keys()[i]) == i,
            self.deep_view().contains_key(self.keys()[i]),
            self.deep_view()[self.keys()[i]] == self.values@[i].deep_view(),
    {
        ascending_is_distinct::<K>(self.keys());
        assert(self.keys().contains(self.keys()[i]));
    }

    proof fn enumerated(&self)
        requires
            ascending::<K>(self.keys()),
        ensures
            self.keys() == in_order::<K>(self.deep_view().dom()),
            self.deep_view().dom() == self.keys().to_set(),
            self.deep_view().dom().finite(),
            self.keys().no_duplicates(),
    {
        ascending_is_distinct::<K>(self.keys());
        assert(self.deep_view().dom() =~= self.keys().to_set());
        let chosen = in_order::<K>(self.deep_view().dom());
        assert(ascending::<K>(chosen) && chosen.to_set() == self.deep_view().dom());
        ascending_is_unique::<K>(chosen, self.keys());
        self.keys().unique_seq_to_set();
    }

    /// A map that holds nothing.
    pub fn new() -> (map: Self)
        ensures
            map.deep_view() == Map::<K::V, V::V>::empty(),
            map.keys().len() == 0,
    {
        let map = SortedMap { names: Vec::new(), values: Vec::new() };
        assert(map.deep_view() =~= Map::<K::V, V::V>::empty());
        map
    }

    /// How many entries there are.
    pub fn len(&self) -> (n: usize)
        ensures
            n == self.keys().len(),
            self.keys() == in_order::<K>(self.deep_view().dom()),
            self.deep_view().dom() == self.keys().to_set(),
            self.deep_view().dom().finite(),
            n == self.deep_view().dom().len(),
            self.keys().no_duplicates(),
            ascending::<K>(self.keys()),
    {
        proof {
            use_type_invariant(self);
            self.enumerated();
            self.keys().unique_seq_to_set();
        }
        self.names.len()
    }

    /// Is there nothing in it?
    pub fn is_empty(&self) -> (empty: bool)
        ensures
            empty == (self.deep_view() == Map::<K::V, V::V>::empty()),
            empty == (self.keys().len() == 0),
    {
        let n: usize = self.len();
        proof {
            if n == 0 {
                assert(self.deep_view() =~= Map::<K::V, V::V>::empty());
            } else {
                assert(self.keys().to_set().contains(self.keys()[0]));
            }
        }
        n == 0
    }

    /// What a key maps to.
    pub fn get(&self, key: &K) -> (found: Option<&V>)
        ensures
            match found {
                Some(value) => self.deep_view().contains_key(key.deep_view()) && value.deep_view()
                    == self.deep_view()[key.deep_view()],
                None => !self.deep_view().contains_key(key.deep_view()),
            },
    {
        proof {
            use_type_invariant(self);
        }
        match position(&self.names, key) {
            Ok(i) => {
                proof {
                    self.indexed(i as int);
                }
                Some(&self.values[i])
            },
            Err(i) => {
                proof {
                    if self.keys().contains(key.deep_view()) {
                        let j = self.keys().index_of(key.deep_view());
                        K::before_irreflexive(key.deep_view());
                    }
                }
                None
            },
        }
    }

    /// Is there an entry under this key?
    pub fn contains(&self, key: &K) -> (found: bool)
        ensures
            found == self.deep_view().contains_key(key.deep_view()),
    {
        self.get(key).is_some()
    }

    /// The key of the entry at one place in the walk.
    pub fn key_at(&self, i: usize) -> (key: &K)
        requires
            i < self.keys().len(),
        ensures
            key.deep_view() == self.keys()[i as int],
            self.deep_view().contains_key(key.deep_view()),
    {
        proof {
            use_type_invariant(self);
            self.indexed(i as int);
        }
        &self.names[i]
    }

    /// The value of the entry at one place in the walk.
    pub fn value_at(&self, i: usize) -> (value: &V)
        requires
            i < self.keys().len(),
        ensures
            value.deep_view() == self.deep_view()[self.keys()[i as int]],
            self.deep_view().contains_key(self.keys()[i as int]),
    {
        proof {
            use_type_invariant(self);
            self.indexed(i as int);
        }
        &self.values[i]
    }

    /// The keys, in order.
    pub fn into_keys(self) -> (keys: Vec<K>)
        ensures
            keys.deep_view() == self.keys(),
    {
        let SortedMap { names, values: _ } = self;
        names
    }

    /// The keys, listed in order.
    pub fn list_keys(&self) -> (keys: Vec<K>)
        ensures
            keys.deep_view() == in_order::<K>(self.deep_view().dom()),
    {
        let n: usize = self.len();
        self.names.duplicate()
    }

    /// Put a value under a key, replacing what was there.
    pub fn insert(&mut self, key: K, value: V)
        ensures
            final(self).deep_view() == old(self).deep_view().insert(
                key.deep_view(),
                value.deep_view(),
            ),
    {
        proof {
            use_type_invariant(&*self);
        }
        let ghost before = *self;
        let ghost k = key.deep_view();
        let mut fresh: SortedMap<K, V> = SortedMap::new();
        std::mem::swap(self, &mut fresh);
        let SortedMap { names, values } = fresh;
        let mut names: Vec<K> = names;
        let mut values: Vec<V> = values;
        assert(names@ == before.names@);
        assert(names.deep_view() =~= before.keys());
        match position(&names, &key) {
            Ok(i) => {
                values[i] = value;
                let ghost d = names.deep_view();
                let after = SortedMap { names, values };
                proof {
                    assert(after.keys() =~= before.keys());
                    assert(before.keys().contains(k)) by {
                        assert(before.keys()[i as int] == k);
                    }
                    assert forall|x: K::V| after.keys().contains(x) implies #[trigger] after.deep_view()[x]
                        == before.deep_view().insert(k, value.deep_view())[x] by {
                        let j = after.keys().index_of(x);
                        after.indexed(j);
                        before.indexed(j);
                        before.indexed(i as int);
                        after.indexed(i as int);
                    }
                    assert(after.deep_view() =~= before.deep_view().insert(k, value.deep_view()));
                }
                *self = after;
            },
            Err(i) => {
                let ghost d = before.keys();
                names.insert(i, key);
                values.insert(i, value);
                assert(names.deep_view() =~= d.insert(i as int, k));
                assert(ascending::<K>(names.deep_view())) by {
                    let n = names.deep_view();
                    assert forall|p: int, q: int| 0 <= p < q < n.len() implies K::before(n[p], n[q]) by {
                        if p < i && q > i {
                            assert(n[p] == d[p] && n[q] == d[q - 1]);
                        } else if p == i {
                            assert(n[q] == d[q - 1]);
                        } else if q == i {
                            assert(n[p] == d[p]);
                        } else if p > i {
                            assert(n[p] == d[p - 1] && n[q] == d[q - 1]);
                        } else {
                            assert(n[p] == d[p] && n[q] == d[q]);
                        }
                    }
                }
                let after = SortedMap { names, values };
                proof {
                    let goal = before.deep_view().insert(k, value.deep_view());
                    assert forall|x: K::V| #[trigger]
                        after.deep_view().contains_key(x) <==> goal.contains_key(x) by {
                        if after.keys().contains(x) {
                            let j = after.keys().index_of(x);
                            if j < i {
                                assert(d[j] == x);
                            } else if j > i {
                                assert(d[j - 1] == x);
                            }
                        }
                        if d.contains(x) {
                            let j = d.index_of(x);
                            if j < i {
                                assert(after.keys()[j] == x);
                            } else {
                                assert(after.keys()[j + 1] == x);
                            }
                        }
                        assert(after.keys()[i as int] == k);
                    }
                    assert forall|x: K::V| #[trigger] after.deep_view().contains_key(x) implies
                        after.deep_view()[x] == goal[x] by {
                        let j = after.keys().index_of(x);
                        after.indexed(j);
                        if j < i {
                            K::before_irreflexive(k);
                            before.indexed(j);
                        } else if j > i {
                            K::before_irreflexive(k);
                            before.indexed(j - 1);
                        }
                    }
                    assert(after.deep_view() =~= goal);
                }
                *self = after;
            },
        }
    }

    /// Take an entry out, handing over its value.
    pub fn take(&mut self, key: &K) -> (taken: Option<V>)
        ensures
            match taken {
                Some(value) => old(self).deep_view().contains_key(key.deep_view())
                    && value.deep_view() == old(self).deep_view()[key.deep_view()],
                None => !old(self).deep_view().contains_key(key.deep_view()),
            },
            final(self).deep_view() == old(self).deep_view().remove(key.deep_view()),
    {
        proof {
            use_type_invariant(&*self);
        }
        let ghost before = *self;
        let ghost k = key.deep_view();
        let mut fresh: SortedMap<K, V> = SortedMap::new();
        std::mem::swap(self, &mut fresh);
        let SortedMap { names, values } = fresh;
        let mut names: Vec<K> = names;
        let mut values: Vec<V> = values;
        assert(names.deep_view() =~= before.keys());
        let ghost d = before.keys();
        match position(&names, key) {
            Ok(i) => {
                names.remove(i);
                let value = values.remove(i);
                assert(names.deep_view() =~= d.remove(i as int));
                let ghost n = names.deep_view();
                assert(ascending::<K>(n)) by {
                    assert forall|p: int, q: int| 0 <= p < q < n.len() implies K::before(n[p], n[q]) by {
                        let p2 = if p < i { p } else { p + 1 };
                        let q2 = if q < i { q } else { q + 1 };
                        assert(n[p] == d[p2] && n[q] == d[q2]);
                    }
                }
                let after = SortedMap { names, values };
                proof {
                    before.indexed(i as int);
                    ascending_is_distinct::<K>(d);
                    let goal = before.deep_view().remove(k);
                    assert forall|x: K::V| #[trigger]
                        after.deep_view().contains_key(x) <==> goal.contains_key(x) by {
                        if n.contains(x) {
                            let j = n.index_of(x);
                            let j2 = if j < i { j } else { j + 1 };
                            assert(d[j2] == x);
                        }
                        if d.contains(x) && x != k {
                            let j = d.index_of(x);
                            let j2 = if j < i { j } else { j - 1 };
                            assert(n[j2] == x);
                        }
                    }
                    assert forall|x: K::V| #[trigger] after.deep_view().contains_key(x) implies
                        after.deep_view()[x] == goal[x] by {
                        let j = n.index_of(x);
                        let j2 = if j < i { j } else { j + 1 };
                        after.indexed(j);
                        before.indexed(j2);
                    }
                    assert(after.deep_view() =~= goal);
                }
                *self = after;
                Some(value)
            },
            Err(i) => {
                proof {
                    if d.contains(k) {
                        let j = d.index_of(k);
                        K::before_irreflexive(k);
                    }
                }
                let after = SortedMap { names, values };
                proof {
                    assert(after.keys() =~= before.keys());
                    assert(after.deep_view() =~= before.deep_view().remove(k));
                }
                *self = after;
                None
            },
        }
    }

    /// Take an entry out, reporting whether there was one.
    pub fn remove(&mut self, key: &K) -> (removed: bool)
        ensures
            removed == old(self).deep_view().contains_key(key.deep_view()),
            final(self).deep_view() == old(self).deep_view().remove(key.deep_view()),
    {
        self.take(key).is_some()
    }
}

impl<K: Key, V: Duplicate> Duplicate for SortedMap<K, V> {
    fn duplicate(&self) -> (copy: Self) {
        proof {
            use_type_invariant(self);
        }
        let names: Vec<K> = self.names.duplicate();
        let values: Vec<V> = self.values.duplicate();
        assert(names.deep_view().len() == names@.len());
        assert(values.deep_view().len() == values@.len());
        assert(self.names.deep_view().len() == self.names@.len());
        assert(self.values.deep_view().len() == self.values@.len());
        let copy = SortedMap { names, values };
        proof {
            assert(copy.keys() == self.keys());
            assert forall|x: K::V| self.keys().contains(x) implies #[trigger] copy.deep_view()[x]
                == self.deep_view()[x] by {
                let j = self.keys().index_of(x);
                assert(copy.values.deep_view()[j] == self.values.deep_view()[j]);
            }
            assert(copy.deep_view() =~= self.deep_view());
        }
        copy
    }
}

impl<V: DeepView> SortedMap<String, V> {
    /// What a name maps to.
    pub fn named(&self, name: &str) -> (found: Option<&V>)
        ensures
            match found {
                Some(value) => self.deep_view().contains_key(name@) && value.deep_view()
                    == self.deep_view()[name@],
                None => !self.deep_view().contains_key(name@),
            },
    {
        self.get(&name.to_owned())
    }

    /// Is there an entry under this name?
    pub fn has(&self, name: &str) -> (found: bool)
        ensures
            found == self.deep_view().contains_key(name@),
    {
        self.named(name).is_some()
    }
}

/// A set kept in order.
#[derive(Debug)]
pub struct SortedSet<K: Key> {
    members: SortedMap<K, ()>,
}

impl<K: Key> DeepView for SortedSet<K> {
    type V = Set<K::V>;

    closed spec fn deep_view(&self) -> Set<K::V> {
        self.members.deep_view().dom()
    }
}

impl<K: Key> SortedSet<K> {
    /// The members, in the order a walk over the set meets them.
    pub closed spec fn keys(&self) -> Seq<K::V> {
        self.members.keys()
    }

    /// A set that holds nothing.
    pub fn new() -> (set: Self)
        ensures
            set.deep_view() == Set::<K::V>::empty(),
            set.keys().len() == 0,
    {
        let set = SortedSet { members: SortedMap::new() };
        assert(set.deep_view() =~= Set::<K::V>::empty());
        set
    }

    /// How many members there are.
    pub fn len(&self) -> (n: usize)
        ensures
            n == self.keys().len(),
            self.keys() == in_order::<K>(self.deep_view()),
            self.deep_view() == self.keys().to_set(),
            self.deep_view().finite(),
            n == self.deep_view().len(),
            self.keys().no_duplicates(),
            ascending::<K>(self.keys()),
    {
        self.members.len()
    }

    /// Is this a member?
    pub fn contains(&self, key: &K) -> (found: bool)
        ensures
            found == self.deep_view().contains(key.deep_view()),
    {
        self.members.contains(key)
    }

    /// The member at one place in the walk.
    pub fn key_at(&self, i: usize) -> (key: &K)
        requires
            i < self.keys().len(),
        ensures
            key.deep_view() == self.keys()[i as int],
            self.deep_view().contains(key.deep_view()),
    {
        self.members.key_at(i)
    }

    /// The members, listed in order.
    pub fn into_list(self) -> (members: Vec<K>)
        ensures
            members.deep_view() == in_order::<K>(self.deep_view()),
            members.deep_view().to_set() == self.deep_view(),
            members.deep_view().no_duplicates(),
            ascending::<K>(members.deep_view()),
    {
        let n: usize = self.members.len();
        self.members.into_keys()
    }

    /// Add a member, reporting whether it is new.
    pub fn insert(&mut self, key: K) -> (added: bool)
        ensures
            added == !old(self).deep_view().contains(key.deep_view()),
            final(self).deep_view() == old(self).deep_view().insert(key.deep_view()),
    {
        let added = !self.members.contains(&key);
        self.members.insert(key, ());
        assert(final(self).deep_view() =~= old(self).deep_view().insert(key.deep_view()));
        added
    }
}

impl<K: Key> SortedSet<K> {
    /// Take a member out, reporting whether it was one.
    pub fn remove(&mut self, key: &K) -> (removed: bool)
        ensures
            removed == old(self).deep_view().contains(key.deep_view()),
            final(self).deep_view() == old(self).deep_view().remove(key.deep_view()),
    {
        let removed = self.members.remove(key);
        assert(final(self).deep_view() =~= old(self).deep_view().remove(key.deep_view()));
        removed
    }
}

impl<K: Key> Duplicate for SortedSet<K> {
    fn duplicate(&self) -> (copy: Self) {
        SortedSet { members: self.members.duplicate() }
    }
}

impl SortedSet<String> {
    /// Is this name a member?
    pub fn has(&self, name: &str) -> (found: bool)
        ensures
            found == self.deep_view().contains(name@),
    {
        self.contains(&name.to_owned())
    }
}

/// The keys of a map, as a set.
pub fn key_set<K: Key, V: DeepView>(map: &SortedMap<K, V>) -> (keys: SortedSet<K>)
    ensures
        keys.deep_view() == map.deep_view().dom(),
{
    let mut keys: SortedSet<K> = SortedSet::new();
    let n: usize = map.len();
    let ghost names = map.keys();
    assert(names.take(0).to_set() =~= Set::<K::V>::empty());
    let mut i: usize = 0;
    while i < n
        invariant
            i <= n == names.len(),
            names == map.keys(),
            keys.deep_view() == names.take(i as int).to_set(),
        decreases n - i,
    {
        keys.insert(map.key_at(i).duplicate());
        proof {
            take_one_more(names, i as int);
            assert(keys.deep_view() =~= names.take(i + 1).to_set());
        }
        i = i + 1;
    }
    assert(names.take(n as int) =~= names);
    keys
}

/// What the first of some keys that has something comes to.
pub open spec fn first_of<K, T>(keys: Seq<K>, test: spec_fn(K) -> Option<T>) -> Option<T>
    decreases keys.len(),
{
    if keys.len() == 0 {
        None
    } else {
        match first_of(keys.drop_last(), test) {
            Some(found) => Some(found),
            None => test(keys.last()),
        }
    }
}

/// What was found early is what is found.
pub proof fn first_stays<K, T>(keys: Seq<K>, test: spec_fn(K) -> Option<T>, n: int)
    requires
        0 <= n <= keys.len(),
        first_of(keys.take(n), test) is Some,
    ensures
        first_of(keys, test) == first_of(keys.take(n), test),
    decreases keys.len() - n,
{
    if n < keys.len() {
        assert(keys.take(n + 1).drop_last() =~= keys.take(n));
        first_stays(keys, test, n + 1);
    } else {
        assert(keys.take(n) =~= keys);
    }
}

/// Where nothing is found, no key has anything.
pub proof fn nothing_found<K, T>(keys: Seq<K>, test: spec_fn(K) -> Option<T>, i: int)
    requires
        first_of(keys, test) is None,
        0 <= i < keys.len(),
    ensures
        test(keys[i]) is None,
    decreases keys.len(),
{
    if i < keys.len() - 1 {
        assert(keys.drop_last()[i] == keys[i]);
        nothing_found(keys.drop_last(), test, i);
    }
}

/// Put everything of one map into another, where it replaces what was there.
pub fn merge<K: Key, V: Duplicate>(map: &mut SortedMap<K, V>, more: &SortedMap<K, V>)
    ensures
        final(map).deep_view() == old(map).deep_view().union_prefer_right(more.deep_view()),
{
    let ghost before = map.deep_view();
    let ghost theirs = more.deep_view();
    let n: usize = more.len();
    let ghost names = more.keys();
    assert(before.union_prefer_right(theirs.restrict(names.take(0).to_set())) =~= before);
    let mut i: usize = 0;
    while i < n
        invariant
            i <= n == names.len(),
            names == more.keys(),
            theirs == more.deep_view(),
            map.deep_view() == before.union_prefer_right(
                theirs.restrict(names.take(i as int).to_set()),
            ),
        decreases n - i,
    {
        map.insert(more.key_at(i).duplicate(), more.value_at(i).duplicate());
        proof {
            take_one_more(names, i as int);
            assert(map.deep_view() =~= before.union_prefer_right(
                theirs.restrict(names.take(i + 1).to_set()),
            ));
        }
        i = i + 1;
    }
    assert(names.take(n as int) =~= names);
    assert(theirs.restrict(names.to_set()) =~= theirs);
}

} // verus!
