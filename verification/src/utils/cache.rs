use vstd::prelude::*;

pub mod lru;

verus! {

/// Where `key` stands in `order`.
pub open spec fn position(order: Seq<u64>, key: u64) -> int {
    order.index_of(key)
}

/// `order` with `key` moved to the front; with `key` put in front where it
/// was absent.
pub open spec fn promoted(order: Seq<u64>, key: u64) -> Seq<u64> {
    if order.contains(key) {
        order.remove(position(order, key)).insert(0, key)
    } else {
        order.insert(0, key)
    }
}

/// Whether putting `key` has to make room first.
pub open spec fn evicts(order: Seq<u64>, limit: nat, key: u64) -> bool {
    !order.contains(key) && order.len() >= limit
}

/// The pool holds at most `limit` entries, at least one is allowed, and
/// `order` names each key of `entries` once.
pub open spec fn pool_shaped<V>(entries: Map<u64, (V, bool)>, order: Seq<u64>, limit: nat) -> bool {
    &&& 1 <= limit
    &&& order.len() <= limit
    &&& order.no_duplicates()
    &&& forall|k: u64| entries.contains_key(k) <==> order.contains(k)
}

/// The pool is well formed: its invariant holds and it is well shaped.
pub open spec fn cache_wf<V, C: Cache<V>>(c: &C) -> bool {
    c.inv() && pool_shaped(c.entries(), c.order(), c.limit())
}

/// A bounded pool of values under 64-bit keys, each with a dirty flag.
///
/// `entries()` is what the pool holds; `order()` lists the keys from the most
/// recently used to the least recently used.
pub trait Cache<V>: Sized {
    /// What the pool holds: under each key its value and dirty flag. A pool
    /// that says nothing of itself holds nothing.
    open spec fn entries(&self) -> Map<u64, (V, bool)> {
        Map::empty()
    }

    /// The keys, the most recently used first.
    open spec fn order(&self) -> Seq<u64> {
        Seq::empty()
    }

    /// How many entries the pool may hold.
    open spec fn limit(&self) -> nat {
        0
    }

    /// The implementation's own invariant. A pool that says nothing of itself
    /// never holds it, so nothing is claimed of it.
    open spec fn inv(&self) -> bool {
        false
    }

    /// An empty pool for `cap` entries.
    fn new(cap: u64) -> (c: Self)
        requires
            cap > 0,
        ensures
            c.inv(),
            pool_shaped(c.entries(), c.order(), c.limit()),
            c.limit() == cap,
            c.order() == Seq::<u64>::empty(),
    ;

    /// Inserts `val` under `key`, clean and most recently used. A present key
    /// has its value replaced and nothing leaves. An absent key in a full pool
    /// drives out the least recently used entry, which is handed back.
    fn put(&mut self, key: u64, val: V) -> (evicted: Option<(u64, V, bool)>)
        requires
            old(self).inv(),
            pool_shaped(old(self).entries(), old(self).order(), old(self).limit()),
        ensures
            final(self).inv(),
            pool_shaped(final(self).entries(), final(self).order(), final(self).limit()),
            final(self).limit() == old(self).limit(),
            evicts(old(self).order(), old(self).limit(), key) ==> {
                let victim = old(self).order().last();
                &&& evicted == Some((victim, old(self).entries()[victim].0, old(self).entries()[victim].1))
                &&& final(self).order() == old(self).order().drop_last().insert(0, key)
                &&& final(self).entries() == old(self).entries().remove(victim).insert(key, (val, false))
            },
            !evicts(old(self).order(), old(self).limit(), key) ==> {
                &&& evicted is None
                &&& final(self).order() == promoted(old(self).order(), key)
                &&& final(self).entries() == old(self).entries().insert(key, (val, false))
            },
    ;

    /// The value under `key`, which becomes the most recently used.
    fn get(&mut self, key: &u64) -> (r: Option<&V>)
        requires
            old(self).inv(),
            pool_shaped(old(self).entries(), old(self).order(), old(self).limit()),
        ensures
            final(self).inv(),
            pool_shaped(final(self).entries(), final(self).order(), final(self).limit()),
            final(self).limit() == old(self).limit(),
            final(self).entries() == old(self).entries(),
            old(self).entries().contains_key(*key) ==> r == Some(&old(self).entries()[*key].0) && final(self).order()
                == promoted(old(self).order(), *key),
            !old(self).entries().contains_key(*key) ==> r is None && final(self).order() == old(self).order(),
    ;

    /// The value under `key`; the pool stays as it is.
    fn peek(&self, key: u64) -> (r: Option<&V>)
        requires
            self.inv(),
            pool_shaped(self.entries(), self.order(), self.limit()),
        ensures
            self.entries().contains_key(key) ==> r == Some(&self.entries()[key].0),
            !self.entries().contains_key(key) ==> r is None,
    ;

    /// The value under `key`, to be changed in place; order and dirty flags
    /// stay as they are.
    fn peek_mut(&mut self, key: u64) -> (r: Option<&mut V>)
        requires
            old(self).inv(),
            pool_shaped(old(self).entries(), old(self).order(), old(self).limit()),
        ensures
            final(self).inv(),
            pool_shaped(final(self).entries(), final(self).order(), final(self).limit()),
            final(self).limit() == old(self).limit(),
            final(self).order() == old(self).order(),
            old(self).entries().contains_key(key) ==> r is Some && *r.unwrap() == old(self).entries()[key].0
                && final(self).entries() == old(self).entries().insert(
                key,
                (*final(r.unwrap()), old(self).entries()[key].1),
            ),
            !old(self).entries().contains_key(key) ==> r is None && final(self).entries() == old(self).entries(),
    ;

    /// The entry that a `put` of an absent key would drive out now: the least
    /// recently used one when the pool is full, none while there is room.
    fn victim(&self) -> (r: Option<(u64, &V, bool)>)
        requires
            self.inv(),
            pool_shaped(self.entries(), self.order(), self.limit()),
        ensures
            self.order().len() < self.limit() ==> r is None,
            self.order().len() >= self.limit() ==> r == Some(
                (self.order().last(), &self.entries()[self.order().last()].0, self.entries()[self.order().last()].1),
            ),
    ;

    /// Sets the dirty flag of `key`; says whether `key` was present.
    fn mark_dirty(&mut self, key: &u64) -> (present: bool)
        requires
            old(self).inv(),
            pool_shaped(old(self).entries(), old(self).order(), old(self).limit()),
        ensures
            final(self).inv(),
            pool_shaped(final(self).entries(), final(self).order(), final(self).limit()),
            final(self).limit() == old(self).limit(),
            final(self).order() == old(self).order(),
            present == old(self).entries().contains_key(*key),
            present ==> final(self).entries() == old(self).entries().insert(
                *key,
                (old(self).entries()[*key].0, true),
            ),
            !present ==> final(self).entries() == old(self).entries(),
    ;

    /// Whether the pool holds nothing.
    fn is_empty(&self) -> (b: bool)
        requires
            self.inv(),
            pool_shaped(self.entries(), self.order(), self.limit()),
        ensures
            b == (self.order().len() == 0),
    ;

    /// Takes every entry out, in no particular order.
    fn drain(&mut self) -> (all: Vec<(u64, V, bool)>)
        requires
            old(self).inv(),
            pool_shaped(old(self).entries(), old(self).order(), old(self).limit()),
        ensures
            final(self).inv(),
            pool_shaped(final(self).entries(), final(self).order(), final(self).limit()),
            final(self).limit() == old(self).limit(),
            final(self).order() == Seq::<u64>::empty(),
            all@.len() == old(self).order().len(),
            forall|i: int, j: int| 0 <= i < j < all@.len() ==> all@[i].0 != all@[j].0,
            forall|i: int|
                0 <= i < all@.len() ==> old(self).entries().contains_key(#[trigger] all@[i].0) && old(self).entries()[all@[i].0]
                    == (all@[i].1, all@[i].2),
            forall|k: u64| #[trigger]
                old(self).entries().contains_key(k) ==> exists|i: int| 0 <= i < all@.len() && all@[i].0 == k,
    ;
}

} // verus!
