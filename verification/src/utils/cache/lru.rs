use vstd::prelude::*;
use std::collections::HashMap;
use super::Cache;
use super::promoted;

verus! {

broadcast use vstd::std_specs::hash::group_hash_axioms;

/// One slot of the pool: an entry and its two neighbours in the ring.
struct Node<V> {
    key: u64,
    val: V,
    dirty: bool,
    prev: usize,
    next: usize,
}

/// A pool that drives out the least recently used entry.
///
/// The slots form a ring through `prev` and `next`; `head` is the most
/// recently used slot and its `prev` the least recently used one. `map` finds
/// the slot of a key.
pub struct LRU<V> {
    cap: u64,
    nodes: Vec<Node<V>>,
    map: HashMap<u64, usize>,
    head: Option<usize>,
    ring: Ghost<Seq<usize>>,
}

spec fn succ(i: int, n: int) -> int {
    if i + 1 < n {
        i + 1
    } else {
        0
    }
}

spec fn pred(i: int, n: int) -> int {
    if i == 0 {
        n - 1
    } else {
        i - 1
    }
}

spec fn with_prev<V>(nodes: Seq<Node<V>>, i: int, p: usize) -> Seq<Node<V>> {
    nodes.update(i, Node { prev: p, ..nodes[i] })
}

spec fn with_next<V>(nodes: Seq<Node<V>>, i: int, x: usize) -> Seq<Node<V>> {
    nodes.update(i, Node { next: x, ..nodes[i] })
}

/// `ring` lists distinct slots of `nodes`, each linked to the one after it and
/// the one before it, the last to the first.
spec fn chained<V>(nodes: Seq<Node<V>>, ring: Seq<usize>) -> bool {
    &&& ring.no_duplicates()
    &&& forall|i: int| 0 <= i < ring.len() ==> (#[trigger] ring[i]) < nodes.len()
    &&& forall|i: int| 0 <= i < ring.len() ==> #[trigger] link_ok(nodes, ring, i)
}

/// The slot at place `i` of `ring` points at its two neighbours.
spec fn link_ok<V>(nodes: Seq<Node<V>>, ring: Seq<usize>, i: int) -> bool {
    &&& nodes[ring[i] as int].next == ring[succ(i, ring.len() as int)]
    &&& nodes[ring[i] as int].prev == ring[pred(i, ring.len() as int)]
}

/// `ring` without `idx`.
spec fn without(ring: Seq<usize>, idx: usize) -> Seq<usize> {
    if ring.contains(idx) {
        ring.remove(ring.index_of(idx))
    } else {
        ring
    }
}

/// The slots after `idx` left its place.
spec fn unlinked<V>(nodes: Seq<Node<V>>, idx: int) -> Seq<Node<V>> {
    let prev = nodes[idx].prev;
    let next = nodes[idx].next;
    with_next(with_prev(nodes, next as int, prev), prev as int, next)
}

/// The slots after `idx` took the place behind `pos`.
spec fn linked_after<V>(nodes: Seq<Node<V>>, idx: int, pos: int) -> Seq<Node<V>> {
    let next = nodes[pos].next;
    with_prev(
        with_next(with_next(with_prev(nodes, idx, pos as usize), idx, next), pos, idx as usize),
        next as int,
        idx as usize,
    )
}

/// The slots after `idx` left its place and went between the last slot of the
/// ring and `head`.
spec fn relinked<V>(nodes: Seq<Node<V>>, head: int, idx: int) -> Seq<Node<V>> {
    let cut = unlinked(nodes, idx);
    linked_after(cut, idx, cut[head].prev as int)
}

spec fn same_payload<V>(a: Seq<Node<V>>, b: Seq<Node<V>>) -> bool {
    &&& a.len() == b.len()
    &&& forall|i: int|
        0 <= i < a.len() ==> (#[trigger] a[i]).key == b[i].key && a[i].val == b[i].val && a[i].dirty == b[i].dirty
}

/// The links of `relinked`, slot by slot.
proof fn lemma_relinked_links<V>(nodes: Seq<Node<V>>, head: usize, idx: usize)
    requires
        idx < nodes.len(),
        head < nodes.len(),
        nodes[idx as int].prev < nodes.len(),
        nodes[idx as int].next < nodes.len(),
        unlinked(nodes, idx as int)[head as int].prev < nodes.len(),
        unlinked(nodes, idx as int)[unlinked(nodes, idx as int)[head as int].prev as int].next == head,
    ensures
        same_payload(relinked(nodes, head as int, idx as int), nodes),
        moved_links(
            relinked(nodes, head as int, idx as int),
            nodes,
            head,
            idx,
            unlinked(nodes, idx as int)[head as int].prev,
        ),
{
}

/// What the links are after slot `idx` went between `tail` and `head`.
spec fn moved_links<V>(after: Seq<Node<V>>, nodes: Seq<Node<V>>, head: usize, idx: usize, tail: usize) -> bool {
    &&& after.len() == nodes.len()
    &&& forall|s: int|
        0 <= s < nodes.len() ==> (#[trigger] after[s]).next == (if s == tail {
            idx
        } else if s == idx {
            head
        } else if s == nodes[idx as int].prev {
            nodes[idx as int].next
        } else {
            nodes[s].next
        }) && after[s].prev == (if s == head {
            idx
        } else if s == idx {
            tail
        } else if s == nodes[idx as int].next {
            nodes[idx as int].prev
        } else {
            nodes[s].prev
        })
}

/// A slot of the ring that moves to the front leaves a ring.
proof fn lemma_ring_moved<V>(after: Seq<Node<V>>, nodes: Seq<Node<V>>, ring: Seq<usize>, p: int, tail: usize)
    requires
        chained(nodes, ring),
        1 <= p < ring.len(),
        tail == (if p == ring.len() - 1 {
            ring[p - 1]
        } else {
            ring.last()
        }),
        moved_links(after, nodes, ring[0], ring[p], tail),
    ensures
        chained(after, ring.remove(p).insert(0, ring[p])),
{
    let n = ring.len() as int;
    let idx = ring[p];
    let ring2 = ring.remove(p).insert(0, idx);
    assert(link_ok(nodes, ring, p));
    assert(ring2.len() == n);
    assert(ring2[0] == idx);
    assert forall|i: int| 1 <= i < n implies #[trigger] ring2[i] == (if i <= p {
        ring[i - 1]
    } else {
        ring[i]
    }) by {}
    assert forall|i: int, j: int| 0 <= i < j < n implies ring2[i] != ring2[j] by {}
    assert forall|i: int| 0 <= i < n implies (#[trigger] ring2[i]) < after.len() by {}
    assert forall|i: int| 0 <= i < n implies #[trigger] link_ok(after, ring2, i) by {
        if i == 0 {
        } else if i <= p {
            assert(link_ok(nodes, ring, i - 1));
        } else {
            assert(link_ok(nodes, ring, i));
        }
    }
}

/// A slot that is linked to itself and goes in front of the ring joins it.
proof fn lemma_ring_joined<V>(after: Seq<Node<V>>, nodes: Seq<Node<V>>, ring: Seq<usize>, idx: usize)
    requires
        chained(nodes, ring),
        ring.len() >= 1,
        idx < nodes.len(),
        !ring.contains(idx),
        nodes[idx as int].prev == idx,
        nodes[idx as int].next == idx,
        moved_links(after, nodes, ring[0], idx, ring.last()),
    ensures
        chained(after, ring.insert(0, idx)),
{
    let n = ring.len() as int;
    let ring2 = ring.insert(0, idx);
    assert forall|i: int| 1 <= i < n + 1 implies #[trigger] ring2[i] == ring[i - 1] by {}
    assert forall|i: int, j: int| 0 <= i < j < n + 1 implies ring2[i] != ring2[j] by {
        assert(ring2[j] == ring[j - 1]);
        if i > 0 {
            assert(ring2[i] == ring[i - 1]);
        }
    }
    assert forall|i: int| 0 <= i < n + 1 implies (#[trigger] ring2[i]) < after.len() by {
        if i > 0 {
            assert(ring2[i] == ring[i - 1]);
        }
    }
    assert forall|i: int| 0 <= i < n + 1 implies #[trigger] link_ok(after, ring2, i) by {
        if i > 0 {
            assert(link_ok(nodes, ring, i - 1));
        }
    }
}

/// `map` finds each slot under its key, and nothing else.
spec fn indexed_of<V>(nodes: Seq<Node<V>>, map: Map<u64, usize>) -> bool {
    &&& forall|k: u64| #[trigger] map.contains_key(k) ==> map[k] < nodes.len() && nodes[map[k] as int].key == k
    &&& forall|i: int|
        0 <= i < nodes.len() ==> map.contains_key((#[trigger] nodes[i]).key) && map[nodes[i].key] == i
}

/// The slots, the index, the head and the ring fit together.
spec fn valid_of<V>(cap: u64, nodes: Seq<Node<V>>, map: Map<u64, usize>, head: Option<usize>, ring: Seq<usize>) -> bool {
    let n = nodes.len();
    &&& cap >= 1
    &&& n <= cap
    &&& chained(nodes, ring)
    &&& ring.len() == n
    &&& forall|s: usize| s < n ==> ring.contains(s)
    &&& head == (if n == 0 {
        None
    } else {
        Some(ring[0])
    })
    &&& indexed_of(nodes, map)
}

spec fn held_of<V>(nodes: Seq<Node<V>>, map: Map<u64, usize>) -> Map<u64, (V, bool)> {
    Map::new(|k: u64| map.contains_key(k), |k: u64| (nodes[map[k] as int].val, nodes[map[k] as int].dirty))
}

spec fn recency_of<V>(nodes: Seq<Node<V>>, ring: Seq<usize>) -> Seq<u64> {
    Seq::new(ring.len(), |i: int| nodes[ring[i] as int].key)
}

/// The entries are what the index and the slots say, and the keys of the ring
/// are distinct.
proof fn lemma_view<V>(cap: u64, nodes: Seq<Node<V>>, map: Map<u64, usize>, head: Option<usize>, ring: Seq<usize>)
    requires
        valid_of(cap, nodes, map, head, ring),
    ensures
        recency_of(nodes, ring).len() == nodes.len(),
        recency_of(nodes, ring).no_duplicates(),
        forall|k: u64| held_of(nodes, map).contains_key(k) <==> recency_of(nodes, ring).contains(k),
        forall|i: int|
            0 <= i < ring.len() ==> held_of(nodes, map).contains_key(#[trigger] recency_of(nodes, ring)[i])
                && map[recency_of(nodes, ring)[i]] == ring[i],
{
    let order = recency_of(nodes, ring);
    assert forall|i: int| 0 <= i < ring.len() implies held_of(nodes, map).contains_key(#[trigger] order[i])
        && map[order[i]] == ring[i] by {
        let s = ring[i];
        assert(nodes[s as int].key == order[i]);
    }
    assert forall|i: int, j: int| 0 <= i < order.len() && 0 <= j < order.len() && i != j implies order[i]
        != order[j] by {
        assert(map[order[i]] == ring[i]);
        assert(map[order[j]] == ring[j]);
    }
    assert forall|k: u64| held_of(nodes, map).contains_key(k) implies order.contains(k) by {
        let s = map[k];
        assert(ring.contains(s));
        let i = ring.index_of(s);
        assert(order[i] == k);
    }
    assert forall|k: u64| order.contains(k) implies held_of(nodes, map).contains_key(k) by {
        let i = order.index_of(k);
        assert(order[i] == k);
    }
}

/// A slot that gets another value leaves the pool consistent, with that
/// value under the slot's key.
proof fn lemma_revalued<V>(
    cap: u64,
    nodes: Seq<Node<V>>,
    map: Map<u64, usize>,
    head: Option<usize>,
    ring: Seq<usize>,
    idx: int,
    v: V,
)
    requires
        valid_of(cap, nodes, map, head, ring),
        0 <= idx < nodes.len(),
    ensures
        ({
            let nodes2 = nodes.update(idx, Node { val: v, ..nodes[idx] });
            &&& valid_of(cap, nodes2, map, head, ring)
            &&& recency_of(nodes2, ring) == recency_of(nodes, ring)
            &&& held_of(nodes2, map) == held_of(nodes, map).insert(nodes[idx].key, (v, nodes[idx].dirty))
        }),
{
    let nodes2 = nodes.update(idx, Node { val: v, ..nodes[idx] });
    assert forall|i: int| 0 <= i < ring.len() implies #[trigger] link_ok(nodes2, ring, i) by {
        assert(link_ok(nodes, ring, i));
    }
    assert(recency_of(nodes2, ring) =~= recency_of(nodes, ring));
    assert(held_of(nodes2, map) =~= held_of(nodes, map).insert(nodes[idx].key, (v, nodes[idx].dirty)));
}

impl<V> LRU<V> {
    /// The representation is consistent.
    pub closed spec fn valid(&self) -> bool {
        valid_of(self.cap, self.nodes@, self.map@, self.head, self.ring@)
    }

    /// What the pool holds.
    pub closed spec fn held(&self) -> Map<u64, (V, bool)> {
        held_of(self.nodes@, self.map@)
    }

    /// The keys, the most recently used first.
    pub closed spec fn recency(&self) -> Seq<u64> {
        recency_of(self.nodes@, self.ring@)
    }

    /// How many entries the pool may hold.
    pub closed spec fn bound(&self) -> nat {
        self.cap as nat
    }

    /// The keys, the most recently used first: the walk from the head along
    /// the ring.
    pub fn recent_keys(&self) -> (keys: Vec<u64>)
        requires
            self.valid(),
        ensures
            keys@ == self.recency(),
    {
        let mut keys: Vec<u64> = Vec::new();
        let Some(head) = self.head else {
            assert(self.recency() =~= Seq::<u64>::empty());
            return keys;
        };
        let mut cur = head;
        let n = self.nodes.len();
        let mut i: usize = 0;
        while i < n
            invariant
                self.valid(),
                n == self.nodes@.len(),
                i <= n,
                keys@.len() == i,
                cur == self.ring@[if i < n {
                    i as int
                } else {
                    0
                }],
                forall|j: int| 0 <= j < i ==> keys@[j] == self.recency()[j],
            decreases n - i,
        {
            proof {
                assert(link_ok(self.nodes@, self.ring@, i as int));
            }
            keys.push(self.nodes[cur].key);
            cur = self.nodes[cur].next;
            i = i + 1;
        }
        assert(keys@ =~= self.recency());
        keys
    }

    fn detach(&mut self, idx: usize)
        requires
            idx < old(self).nodes@.len(),
            old(self).nodes@[idx as int].prev < old(self).nodes@.len(),
            old(self).nodes@[idx as int].next < old(self).nodes@.len(),
        ensures
            final(self).nodes@ == unlinked(old(self).nodes@, idx as int),
            final(self).cap == old(self).cap,
            final(self).map == old(self).map,
            final(self).head == old(self).head,
            final(self).ring == old(self).ring,
    {
        let prev = self.nodes[idx].prev;
        let next = self.nodes[idx].next;
        self.nodes[next].prev = prev;
        self.nodes[prev].next = next;
    }

    fn attach(&mut self, idx: usize, pos: usize)
        requires
            idx < old(self).nodes@.len(),
            pos < old(self).nodes@.len(),
            old(self).nodes@[pos as int].next < old(self).nodes@.len(),
        ensures
            final(self).nodes@ == linked_after(old(self).nodes@, idx as int, pos as int),
            final(self).cap == old(self).cap,
            final(self).map == old(self).map,
            final(self).head == old(self).head,
            final(self).ring == old(self).ring,
    {
        let next = self.nodes[pos].next;
        self.nodes[idx].prev = pos;
        self.nodes[idx].next = next;
        self.nodes[pos].next = idx;
        self.nodes[next].prev = idx;
    }

    fn move_to_head(&mut self, idx: usize)
        requires
            chained(old(self).nodes@, old(self).ring@),
            old(self).ring@.len() >= 1,
            old(self).head == Some(old(self).ring@[0]),
            idx < old(self).nodes@.len(),
            old(self).ring@.contains(idx) || (old(self).nodes@[idx as int].prev == idx && old(self).nodes@[idx as int].next
                == idx),
        ensures
            chained(final(self).nodes@, final(self).ring@),
            final(self).ring@ == without(old(self).ring@, idx).insert(0, idx),
            same_payload(final(self).nodes@, old(self).nodes@),
            final(self).head == Some(idx),
            final(self).cap == old(self).cap,
            final(self).map == old(self).map,
    {
        let head = self.head.unwrap();
        let ghost ring = self.ring@;
        let ghost nodes = self.nodes@;
        let ghost n = ring.len() as int;
        if idx == head {
            proof {
                assert(ring.index_of(idx) == 0);
                assert(ring.remove(0).insert(0, idx) =~= ring);
            }
            return ;
        }
        proof {
            assert(link_ok(nodes, ring, 0));
            assert(link_ok(nodes, ring, n - 1));
            if ring.contains(idx) {
                let p = ring.index_of(idx);
                assert(link_ok(nodes, ring, p));
            }
        }
        self.detach(idx);
        let tail = self.nodes[head].prev;
        proof {
            if ring.contains(idx) {
                let p = ring.index_of(idx);
                assert(tail == (if p == n - 1 {
                    ring[p - 1]
                } else {
                    ring.last()
                }));
            } else {
                assert(self.nodes@ =~= nodes);
                assert(tail == ring.last());
            }
            assert(self.nodes@[tail as int].next == head);
        }
        self.attach(idx, tail);
        self.head = Some(idx);
        proof {
            assert(self.nodes@ == relinked(nodes, head as int, idx as int));
            lemma_relinked_links(nodes, head, idx);
            if ring.contains(idx) {
                let p = ring.index_of(idx);
                lemma_ring_moved(self.nodes@, nodes, ring, p, tail);
            } else {
                lemma_ring_joined(self.nodes@, nodes, ring, idx);
            }
            self.ring = Ghost(without(ring, idx).insert(0, idx));
        }
    }
}

/// Moving a slot of the ring to the front moves its key to the front.
proof fn lemma_promoted<V>(nodes: Seq<Node<V>>, ring: Seq<usize>, after: Seq<Node<V>>, p: int)
    requires
        0 <= p < ring.len(),
        ring.no_duplicates(),
        forall|i: int| 0 <= i < ring.len() ==> (#[trigger] ring[i]) < nodes.len(),
        Seq::new(ring.len(), |i: int| nodes[ring[i] as int].key).no_duplicates(),
        same_payload(after, nodes),
    ensures
        without(ring, ring[p]) == ring.remove(p),
        Seq::new(ring.len(), |i: int| after[ring.remove(p).insert(0, ring[p])[i] as int].key) == promoted(
            Seq::new(ring.len(), |i: int| nodes[ring[i] as int].key),
            nodes[ring[p] as int].key,
        ),
{
    let order = Seq::new(ring.len(), |i: int| nodes[ring[i] as int].key);
    let key = nodes[ring[p] as int].key;
    let ring2 = ring.remove(p).insert(0, ring[p]);
    assert(order[p] == key);
    assert(order.contains(key));
    assert(order.index_of(key) == p);
    assert(ring.contains(ring[p]));
    assert(ring.index_of(ring[p]) == p);
    let order2 = Seq::new(ring.len(), |i: int| after[ring2[i] as int].key);
    assert(order2 =~= order.remove(p).insert(0, key)) by {
        assert forall|i: int| 0 <= i < ring.len() implies order2[i] == order.remove(p).insert(0, key)[i] by {
            if i == 0 {
            } else if i <= p {
                assert(ring2[i] == ring[i - 1]);
            } else {
                assert(ring2[i] == ring[i]);
            }
        }
    }
}

impl<V> Cache<V> for LRU<V> {
    open spec fn entries(&self) -> Map<u64, (V, bool)> {
        self.held()
    }

    open spec fn order(&self) -> Seq<u64> {
        self.recency()
    }

    open spec fn limit(&self) -> nat {
        self.bound()
    }

    open spec fn inv(&self) -> bool {
        self.valid()
    }

    fn new(cap: u64) -> (c: Self) {
        let c = Self { cap, nodes: Vec::new(), map: HashMap::new(), head: None, ring: Ghost(Seq::empty()) };
        assert(c.recency() =~= Seq::<u64>::empty());
        proof {
            lemma_view(c.cap, c.nodes@, c.map@, c.head, c.ring@);
        }
        c
    }

    fn put(&mut self, key: u64, val: V) -> (evicted: Option<(u64, V, bool)>) {
        proof {
            lemma_view(self.cap, self.nodes@, self.map@, self.head, self.ring@);
        }
        let ghost nodes = self.nodes@;
        let ghost ring = self.ring@;
        let ghost n = nodes.len() as int;
        let found = match self.map.get(&key) {
            Some(slot) => Some(*slot),
            None => None,
        };
        if let Some(idx) = found {
            self.nodes[idx].val = val;
            self.nodes[idx].dirty = false;
            let ghost nodes1 = self.nodes@;
            proof {
                assert forall|i: int| 0 <= i < ring.len() implies #[trigger] link_ok(nodes1, ring, i) by {
                    assert(link_ok(nodes, ring, i));
                }
                assert(ring.contains(idx));
            }
            self.move_to_head(idx);
            proof {
                let p = ring.index_of(idx);
                assert(Seq::new(ring.len(), |i: int| nodes1[ring[i] as int].key) =~= old(self).recency());
                lemma_promoted(nodes1, ring, self.nodes@, p);
                assert(self.recency() =~= Seq::new(
                    ring.len(),
                    |i: int| self.nodes@[ring.remove(p).insert(0, ring[p])[i] as int].key,
                ));
                assert forall|s: usize| s < n implies self.ring@.contains(s) by {
                    assert(ring.contains(s));
                    let j = ring.index_of(s);
                    assert(ring[j] == s);
                    if j == p {
                        assert(self.ring@[0] == s);
                    } else if j < p {
                        assert(self.ring@[j + 1] == s);
                    } else {
                        assert(self.ring@[j] == s);
                    }
                }
                assert(self.held() =~= old(self).held().insert(key, (val, false)));
                lemma_view(self.cap, self.nodes@, self.map@, self.head, self.ring@);
            }
            return None;
        }
        if (self.nodes.len() as u64) < self.cap {
            let idx = self.nodes.len();
            self.nodes.push(Node { key, val, dirty: false, prev: idx, next: idx });
            let ghost nodes1 = self.nodes@;
            proof {
                assert forall|i: int| 0 <= i < ring.len() implies #[trigger] link_ok(nodes1, ring, i) by {
                    assert(link_ok(nodes, ring, i));
                }
                assert(!ring.contains(idx));
            }
            if self.head.is_some() {
                self.move_to_head(idx);
            } else {
                self.head = Some(idx);
                proof {
                    self.ring = Ghost(ring.insert(0, idx));
                    assert(link_ok(self.nodes@, self.ring@, 0));
                }
            }
            self.map.insert(key, idx);
            proof {
                assert(self.ring@ == ring.insert(0, idx));
                assert forall|s: usize| s < n + 1 implies self.ring@.contains(s) by {
                    if s == idx {
                        assert(self.ring@[0] == s);
                    } else {
                        assert(ring.contains(s));
                        let j = ring.index_of(s);
                        assert(ring[j] == s);
                        assert(self.ring@[j + 1] == s);
                    }
                }
                assert(self.recency() =~= old(self).recency().insert(0, key)) by {
                    assert forall|i: int| 0 <= i < n + 1 implies self.recency()[i] == old(self).recency().insert(
                        0,
                        key,
                    )[i] by {
                        if i > 0 {
                            assert(self.ring@[i] == ring[i - 1]);
                        }
                    }
                }
                assert(self.held() =~= old(self).held().insert(key, (val, false)));
                lemma_view(self.cap, self.nodes@, self.map@, self.head, self.ring@);
            }
            return None;
        }
        let head = self.head.unwrap();
        proof {
            assert(link_ok(nodes, ring, 0));
            assert(link_ok(nodes, ring, n - 1));
        }
        let idx = self.nodes[head].prev;
        let mut slot = Node { key, val, dirty: false, prev: self.nodes[idx].prev, next: self.nodes[idx].next };
        std::mem::swap(&mut self.nodes[idx], &mut slot);
        let ghost nodes1 = self.nodes@;
        self.map.remove(&slot.key);
        self.map.insert(key, idx);
        proof {
            assert forall|i: int| 0 <= i < ring.len() implies #[trigger] link_ok(nodes1, ring, i) by {
                assert(link_ok(nodes, ring, i));
            }
            assert(ring[n - 1] == idx);
            assert(ring.contains(idx));
            assert(ring.index_of(idx) == n - 1);
        }
        self.move_to_head(idx);
        proof {
            let victim = old(self).recency().last();
            assert(victim == slot.key);
            assert(self.ring@ == ring.remove(n - 1).insert(0, idx));
            assert forall|s: usize| s < n implies self.ring@.contains(s) by {
                assert(ring.contains(s));
                let j = ring.index_of(s);
                assert(ring[j] == s);
                if j == n - 1 {
                    assert(self.ring@[0] == s);
                } else {
                    assert(self.ring@[j + 1] == s);
                }
            }
            assert(self.recency() =~= old(self).recency().drop_last().insert(0, key)) by {
                assert forall|i: int| 0 <= i < n implies self.recency()[i] == old(self).recency().drop_last().insert(
                    0,
                    key,
                )[i] by {
                    if i > 0 {
                        assert(self.ring@[i] == ring[i - 1]);
                        assert(ring[i - 1] != idx);
                    }
                }
            }
            assert(self.held() =~= old(self).held().remove(victim).insert(key, (val, false)));
            lemma_view(self.cap, self.nodes@, self.map@, self.head, self.ring@);
        }
        Some((slot.key, slot.val, slot.dirty))
    }

    fn get(&mut self, key: &u64) -> (r: Option<&V>) {
        proof {
            lemma_view(self.cap, self.nodes@, self.map@, self.head, self.ring@);
        }
        let ghost nodes = self.nodes@;
        let ghost ring = self.ring@;
        let ghost n = nodes.len() as int;
        let found = match self.map.get(key) {
            Some(slot) => Some(*slot),
            None => None,
        };
        if let Some(idx) = found {
            proof {
                assert(ring.contains(idx));
            }
            self.move_to_head(idx);
            self.head = Some(idx);
            proof {
                let p = ring.index_of(idx);
                assert(Seq::new(ring.len(), |i: int| nodes[ring[i] as int].key) =~= old(self).recency());
                lemma_promoted(nodes, ring, self.nodes@, p);
                assert(self.recency() =~= Seq::new(
                    ring.len(),
                    |i: int| self.nodes@[ring.remove(p).insert(0, ring[p])[i] as int].key,
                ));
                assert forall|s: usize| s < n implies self.ring@.contains(s) by {
                    assert(ring.contains(s));
                    let j = ring.index_of(s);
                    assert(ring[j] == s);
                    if j == p {
                        assert(self.ring@[0] == s);
                    } else if j < p {
                        assert(self.ring@[j + 1] == s);
                    } else {
                        assert(self.ring@[j] == s);
                    }
                }
                assert(self.held() =~= old(self).held());
                lemma_view(self.cap, self.nodes@, self.map@, self.head, self.ring@);
            }
            Some(&self.nodes[idx].val)
        } else {
            None
        }
    }

    fn peek(&self, key: u64) -> (r: Option<&V>) {
        match self.map.get(&key) {
            Some(slot) => Some(&self.nodes[*slot].val),
            None => None,
        }
    }

    fn peek_mut(&mut self, key: u64) -> (r: Option<&mut V>) {
        proof {
            lemma_view(self.cap, self.nodes@, self.map@, self.head, self.ring@);
        }
        let found = match self.map.get(&key) {
            Some(slot) => Some(*slot),
            None => None,
        };
        match found {
            Some(idx) => {
                let ghost cap = self.cap;
                let ghost nodes = self.nodes@;
                let ghost map = self.map@;
                let ghost head = self.head;
                let ghost ring = self.ring@;
                let r = &mut self.nodes[idx].val;
                proof {
                    lemma_revalued(cap, nodes, map, head, ring, idx as int, *final(r));
                }
                Some(r)
            },
            None => None,
        }
    }

    fn victim(&self) -> (r: Option<(u64, &V, bool)>) {
        proof {
            lemma_view(self.cap, self.nodes@, self.map@, self.head, self.ring@);
        }
        if (self.nodes.len() as u64) < self.cap {
            return None;
        }
        let head = self.head.unwrap();
        proof {
            assert(link_ok(self.nodes@, self.ring@, 0));
            assert(self.recency()[self.ring@.len() - 1] == self.recency().last());
        }
        let slot = &self.nodes[self.nodes[head].prev];
        Some((slot.key, &slot.val, slot.dirty))
    }

    fn mark_dirty(&mut self, key: &u64) -> (present: bool) {
        proof {
            lemma_view(self.cap, self.nodes@, self.map@, self.head, self.ring@);
        }
        let ghost nodes = self.nodes@;
        let ghost ring = self.ring@;
        let found = match self.map.get(key) {
            Some(slot) => Some(*slot),
            None => None,
        };
        if let Some(idx) = found {
            self.nodes[idx].dirty = true;
            proof {
                assert forall|i: int| 0 <= i < ring.len() implies #[trigger] link_ok(self.nodes@, ring, i) by {
                    assert(link_ok(nodes, ring, i));
                }
                assert(self.recency() =~= old(self).recency());
                assert(self.held() =~= old(self).held().insert(*key, (old(self).held()[*key].0, true)));
                lemma_view(self.cap, self.nodes@, self.map@, self.head, self.ring@);
            }
            return true;
        }
        false
    }

    fn is_empty(&self) -> (b: bool) {
        self.head.is_none()
    }

    fn drain(&mut self) -> (all: Vec<(u64, V, bool)>) {
        proof {
            lemma_view(self.cap, self.nodes@, self.map@, self.head, self.ring@);
        }
        let ghost before = self.nodes@;
        let mut nodes: Vec<Node<V>> = Vec::new();
        std::mem::swap(&mut self.nodes, &mut nodes);
        self.map.clear();
        self.head = None;
        proof {
            self.ring = Ghost(Seq::empty());
            assert(self.recency() =~= Seq::<u64>::empty());
            lemma_view(self.cap, self.nodes@, self.map@, self.head, self.ring@);
        }
        let mut all: Vec<(u64, V, bool)> = Vec::new();
        while nodes.len() > 0
            invariant
                nodes@.len() + all@.len() == before.len(),
                nodes@ == before.subrange(0, nodes@.len() as int),
                forall|i: int|
                    0 <= i < all@.len() ==> (#[trigger] all@[i]).0 == before[before.len() - 1 - i].key && all@[i].1
                        == before[before.len() - 1 - i].val && all@[i].2 == before[before.len() - 1 - i].dirty,
            decreases nodes@.len(),
        {
            let node = nodes.pop().unwrap();
            all.push((node.key, node.val, node.dirty));
        }
        assert forall|i: int, j: int| 0 <= i < j < all@.len() implies all@[i].0 != all@[j].0 by {
            assert(before[before.len() - 1 - i].key != before[before.len() - 1 - j].key);
        }
        assert forall|i: int| 0 <= i < all@.len() implies old(self).held().contains_key(#[trigger] all@[i].0) && old(
            self,
        ).held()[all@[i].0] == (all@[i].1, all@[i].2) by {
            let s = before.len() - 1 - i;
            assert(before[s].key == all@[i].0);
        }
        assert forall|k: u64| #[trigger] old(self).held().contains_key(k) implies exists|i: int|
            0 <= i < all@.len() && all@[i].0 == k by {
            let s = old(self).map@[k];
            let i = before.len() - 1 - s;
            assert(all@[i].0 == k);
        }
        all
    }
}

} // verus!
