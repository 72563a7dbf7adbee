use vstd::prelude::*;
use super::block_ops::only_block_changed;
use super::bp_tree_node::NO_BLOCK;
use super::bp_tree_node::well_sized;
use super::chain::ahead;
use super::chain::ahead_at;
use super::chain::chained;
use super::chain::entries;
use super::chain::extents;
use super::chain::first_live;
use super::chain::front;
use super::chain::given_back;
use super::chain::holds_at;
use super::chain::lemma_extents_frame;
use super::chain::lemma_extents_split;
use super::chain::lemma_first_live;
use super::chain::lemma_first_live_exists;
use super::chain::live_at;
use super::chain::meets_left;
use super::chain::meets_right;
use super::chain::next_key;
use super::chain::popped;
use super::chain::trimmed;
use super::shape::node_at;

verus! {

/// Block `b` lies in one of the extents `list`.
pub open spec fn covered(list: Seq<(u64, u64)>, b: u64) -> bool {
    exists|t: int| 0 <= t < list.len() && (#[trigger] list[t]).0 <= b < list[t].0 + list[t].1
}

/// The extents `list` lie within a device of `count` blocks, one behind the
/// other, and hold none of the blocks `chain`.
pub open spec fn tidy(list: Seq<(u64, u64)>, chain: Seq<u64>, count: nat) -> bool {
    &&& forall|t: int| 0 <= t < list.len() ==> (#[trigger] list[t]).0 + list[t].1 <= count
    &&& forall|t: int, u: int| 0 <= t < u < list.len() ==> (#[trigger] list[t]).0 + list[t].1 <= (#[trigger] list[u]).0
    &&& forall|j: int| 0 <= j < chain.len() ==> !covered(list, #[trigger] chain[j])
}

/// How many blocks the extents `list` hold.
pub open spec fn total(list: Seq<(u64, u64)>) -> nat
    decreases list.len(),
{
    if list.len() == 0 {
        0
    } else {
        list[0].1 as nat + total(list.subrange(1, list.len() as int))
    }
}

/// Extents in front whose lengths are zero hold nothing.
pub proof fn lemma_total_skips(list: Seq<(u64, u64)>, k: int)
    requires
        0 <= k <= first_live(list),
    ensures
        total(list) == total(list.subrange(k, list.len() as int)),
    decreases k,
{
    lemma_first_live_exists(list);
    if k == 0 {
        assert(list.subrange(0, list.len() as int) =~= list);
    } else {
        let rest = list.subrange(1, list.len() as int);
        assert(list[0].1 == 0);
        lemma_first_live_exists(rest);
        let t = first_live(list);
        assert(live_at(rest, t - 1)) by {
            assert forall|u: int| 0 <= u < t - 1 implies (#[trigger] rest[u]).1 == 0 by {
                assert(rest[u] == list[u + 1]);
            }
            if t - 1 < rest.len() {
                assert(rest[t - 1] == list[t]);
            }
        }
        lemma_first_live(rest, t - 1);
        lemma_total_skips(rest, k - 1);
        assert(rest.subrange(k - 1, rest.len() as int) =~= list.subrange(k, list.len() as int));
    }
}

/// Extents that hold a block have an extent whose length is above zero.
pub proof fn lemma_total_front(list: Seq<(u64, u64)>)
    ensures
        total(list) > 0 ==> front(list) is Some,
        front(list) is None ==> total(list) == 0,
{
    lemma_first_live_exists(list);
    let t = first_live(list);
    lemma_total_skips(list, t);
    if t == list.len() {
        assert(list.subrange(t, list.len() as int) =~= Seq::<(u64, u64)>::empty());
    }
}

/// Tidy extents without some extents in front of the first one that holds a
/// block are tidy, and hold the same blocks.
pub proof fn lemma_tidy_trimmed(before: Seq<(u64, u64)>, now: Seq<(u64, u64)>, chain: Seq<u64>, count: nat)
    requires
        tidy(before, chain, count),
        trimmed(before, now),
    ensures
        tidy(now, chain, count),
        total(now) == total(before),
        forall|b: u64| covered(now, b) <==> covered(before, b),
{
    let k = choose|k: int| 0 <= k <= first_live(before) && now == #[trigger] before.subrange(k, before.len() as int);
    lemma_first_live_exists(before);
    lemma_total_skips(before, k);
    assert forall|b: u64| covered(now, b) implies covered(before, b) by {
        let t = choose|t: int| 0 <= t < now.len() && (#[trigger] now[t]).0 <= b < now[t].0 + now[t].1;
        assert(before[t + k] == now[t]);
    }
    assert forall|b: u64| covered(before, b) implies covered(now, b) by {
        let t = choose|t: int| 0 <= t < before.len() && (#[trigger] before[t]).0 <= b < before[t].0 + before[t].1;
        if t < k {
            assert(before[t].1 == 0);
        }
        assert(now[t - k] == before[t]);
    }
    assert forall|t: int| 0 <= t < now.len() implies (#[trigger] now[t]).0 + now[t].1 <= count by {
        assert(now[t] == before[t + k]);
    }
    assert forall|t: int, u: int| 0 <= t < u < now.len() implies (#[trigger] now[t]).0 + now[t].1 <= (#[trigger] now[u]).0 by {
        assert(now[t] == before[t + k]);
        assert(now[u] == before[u + k]);
    }
    assert forall|j: int| 0 <= j < chain.len() implies !covered(now, #[trigger] chain[j]) by {
        assert(!covered(before, chain[j]));
    }
}

/// Taking the first block of tidy extents leaves tidy extents that hold every
/// block that they held but that one.
pub proof fn lemma_tidy_popped(list: Seq<(u64, u64)>, chain: Seq<u64>, count: nat)
    requires
        tidy(list, chain, count),
        count <= u64::MAX,
    ensures
        tidy(popped(list), chain, count),
        front(list) matches Some(b) ==> {
            &&& b < count
            &&& covered(list, b)
            &&& !covered(popped(list), b)
            &&& !chain.contains(b)
            &&& total(popped(list)) == total(list) - 1
            &&& forall|x: u64| covered(popped(list), x) <==> covered(list, x) && x != b
        },
        front(list) is None ==> popped(list) == Seq::<(u64, u64)>::empty() && total(list) == 0,
{
    lemma_first_live_exists(list);
    lemma_total_front(list);
    let t = first_live(list);
    let left = popped(list);
    if t < list.len() {
        let b = list[t].0;
        let v = list[t].1;
        assert(b + v <= count);
        assert(next_key(b) == b + 1);
        assert(left[0] == ((b + 1) as u64, (v - 1) as u64));
        assert forall|u: int| 1 <= u < left.len() implies #[trigger] left[u] == list[t + u] by {}
        assert(covered(list, b));
        assert forall|x: u64| covered(left, x) implies covered(list, x) && x != b by {
            let u = choose|u: int| 0 <= u < left.len() && (#[trigger] left[u]).0 <= x < left[u].0 + left[u].1;
            if u == 0 {
                assert(list[t].0 <= x < list[t].0 + list[t].1);
            } else {
                assert(left[u] == list[t + u]);
                assert(list[t].0 + list[t].1 <= list[t + u].0);
            }
        }
        assert forall|x: u64| covered(list, x) && x != b implies covered(left, x) by {
            let u = choose|u: int| 0 <= u < list.len() && (#[trigger] list[u]).0 <= x < list[u].0 + list[u].1;
            if u < t {
                assert(list[u].1 == 0);
            } else if u == t {
                assert(left[0].0 <= x < left[0].0 + left[0].1);
            } else {
                assert(left[u - t] == list[u]);
            }
        }
        assert(!chain.contains(b)) by {
            if chain.contains(b) {
                let j = choose|j: int| 0 <= j < chain.len() && chain[j] == b;
                assert(!covered(list, chain[j]));
            }
        }
        assert forall|a: int| 0 <= a < left.len() implies (#[trigger] left[a]).0 + left[a].1 <= count by {
            if a > 0 {
                assert(left[a] == list[t + a]);
            }
        }
        assert forall|a: int, u: int| 0 <= a < u < left.len() implies (#[trigger] left[a]).0 + left[a].1 <= (
        #[trigger] left[u]).0 by {
            assert(left[u] == list[t + u]);
            if a > 0 {
                assert(left[a] == list[t + a]);
            } else {
                assert(list[t].0 + list[t].1 <= list[t + u].0);
            }
        }
        assert forall|j: int| 0 <= j < chain.len() implies !covered(left, #[trigger] chain[j]) by {
            assert(!covered(list, chain[j]));
        }
        lemma_total_skips(list, t);
        let tail = list.subrange(t, list.len() as int);
        assert(tail[0] == list[t]);
        assert(tail.subrange(1, tail.len() as int) =~= list.subrange(t + 1, list.len() as int));
        assert(left.subrange(1, left.len() as int) =~= list.subrange(t + 1, list.len() as int));
    } else {
        assert forall|j: int| 0 <= j < chain.len() implies !covered(left, #[trigger] chain[j]) by {}
    }
}

/// Place `p` divides `list` at block `b`: the extents in front of `p` end at
/// `b` or before it, the extents from `p` on start behind `b`.
pub open spec fn divides(list: Seq<(u64, u64)>, p: int, b: u64) -> bool {
    &&& 0 <= p <= list.len()
    &&& forall|u: int| 0 <= u < p ==> (#[trigger] list[u]).0 + list[u].1 <= b
    &&& forall|u: int| p <= u < list.len() ==> (#[trigger] list[u]).0 > b
}

/// `now` is `before` after the block `b` was given back at the place that
/// divides `before` at `b`: the extent in front of the place, where it ends
/// at `b`, took `b` at its end; or the extent at the place, where it starts
/// right behind `b`, took `b` at its start; or `b` became an extent of its
/// own at the place.
pub open spec fn given_back_to(before: Seq<(u64, u64)>, now: Seq<(u64, u64)>, b: u64) -> bool {
    exists|p: int|
        {
            &&& #[trigger] divides(before, p, b)
            &&& {
                ||| meets_left(before, p, b) && now == before.update(p - 1, (before[p - 1].0, (before[p - 1].1 + 1) as u64))
                ||| meets_right(before, p, b) && now == before.update(p, (b, (before[p].1 + 1) as u64))
                ||| now == before.insert(p, (b, 1u64))
            }
        }
}

/// `now` holds the blocks of `before` and the block `b`, which `before` did
/// not hold, and is tidy as `before` was.
pub open spec fn gained(before: Seq<(u64, u64)>, now: Seq<(u64, u64)>, chain: Seq<u64>, count: nat, b: u64) -> bool {
    &&& tidy(now, chain, count)
    &&& total(now) == total(before) + 1
    &&& forall|x: u64| covered(now, x) <==> covered(before, x) || x == b
}

/// An extent that grows by one block adds one to the blocks held.
pub proof fn lemma_total_update(list: Seq<(u64, u64)>, q: int, k: u64)
    requires
        0 <= q < list.len(),
        list[q].1 < u64::MAX,
    ensures
        total(list.update(q, (k, (list[q].1 + 1) as u64))) == total(list) + 1,
    decreases q,
{
    let now = list.update(q, (k, (list[q].1 + 1) as u64));
    let rest = list.subrange(1, list.len() as int);
    if q == 0 {
        assert(now.subrange(1, now.len() as int) =~= rest);
    } else {
        lemma_total_update(rest, q - 1, k);
        assert(now.subrange(1, now.len() as int) =~= rest.update(q - 1, (k, (rest[q - 1].1 + 1) as u64)));
    }
}

/// An extent of one block that is put into a list adds one to the blocks
/// held.
pub proof fn lemma_total_insert(list: Seq<(u64, u64)>, p: int, b: u64)
    requires
        0 <= p <= list.len(),
    ensures
        total(list.insert(p, (b, 1u64))) == total(list) + 1,
    decreases p,
{
    let now = list.insert(p, (b, 1u64));
    if p == 0 {
        assert(now.subrange(1, now.len() as int) =~= list);
    } else {
        let rest = list.subrange(1, list.len() as int);
        lemma_total_insert(rest, p - 1, b);
        assert(now.subrange(1, now.len() as int) =~= rest.insert(p - 1, (b, 1u64)));
    }
}

/// The extent in front of the dividing place, where it ends at `b`, takes `b`
/// at its end.
pub proof fn lemma_grow_left(list: Seq<(u64, u64)>, chain: Seq<u64>, count: nat, p: int, b: u64)
    requires
        tidy(list, chain, count),
        count <= u64::MAX,
        divides(list, p, b),
        b < count,
        !chain.contains(b),
        p > 0,
        list[p - 1].0 + list[p - 1].1 == b,
    ensures
        gained(list, list.update(p - 1, (list[p - 1].0, (list[p - 1].1 + 1) as u64)), chain, count, b),
{
    let k = list[p - 1].0;
    let v = list[p - 1].1;
    let now = list.update(p - 1, (k, (v + 1) as u64));
    lemma_total_update(list, p - 1, k);
    assert forall|x: u64| covered(now, x) implies covered(list, x) || x == b by {
        let u = choose|u: int| 0 <= u < now.len() && (#[trigger] now[u]).0 <= x < now[u].0 + now[u].1;
        if u != p - 1 {
            assert(list[u] == now[u]);
        } else if x != b {
            assert(list[u].0 <= x < list[u].0 + list[u].1);
        }
    }
    assert forall|x: u64| covered(list, x) || x == b implies covered(now, x) by {
        if x == b {
            assert(now[p - 1].0 <= x < now[p - 1].0 + now[p - 1].1);
        } else {
            let u = choose|u: int| 0 <= u < list.len() && (#[trigger] list[u]).0 <= x < list[u].0 + list[u].1;
            if u != p - 1 {
                assert(now[u] == list[u]);
            }
            assert(now[u].0 <= x < now[u].0 + now[u].1);
        }
    }
    assert forall|t: int| 0 <= t < now.len() implies (#[trigger] now[t]).0 + now[t].1 <= count by {
        if t != p - 1 {
            assert(now[t] == list[t]);
        }
    }
    assert forall|t: int, u: int| 0 <= t < u < now.len() implies (#[trigger] now[t]).0 + now[t].1 <= (#[trigger] now[u]).0 by {
        if t == p - 1 {
            assert(now[u] == list[u]);
            assert(list[u].0 > b);
        } else {
            assert(now[t] == list[t]);
            if u != p - 1 {
                assert(now[u] == list[u]);
            }
            assert(list[t].0 + list[t].1 <= list[u].0);
        }
    }
    assert forall|j: int| 0 <= j < chain.len() implies !covered(now, #[trigger] chain[j]) by {
        assert(!covered(list, chain[j]));
        assert(chain.contains(chain[j]));
    }
}

/// The extent at the dividing place, where it starts right behind `b`, takes
/// `b` at its start.
pub proof fn lemma_grow_right(list: Seq<(u64, u64)>, chain: Seq<u64>, count: nat, p: int, b: u64)
    requires
        tidy(list, chain, count),
        count <= u64::MAX,
        divides(list, p, b),
        b < count,
        !chain.contains(b),
        p < list.len(),
        list[p].0 == b + 1,
    ensures
        gained(list, list.update(p, (b, (list[p].1 + 1) as u64)), chain, count, b),
{
    let v = list[p].1;
    let now = list.update(p, (b, (v + 1) as u64));
    lemma_total_update(list, p, b);
    assert forall|x: u64| covered(now, x) implies covered(list, x) || x == b by {
        let u = choose|u: int| 0 <= u < now.len() && (#[trigger] now[u]).0 <= x < now[u].0 + now[u].1;
        if u != p {
            assert(list[u] == now[u]);
        } else if x != b {
            assert(list[u].0 <= x < list[u].0 + list[u].1);
        }
    }
    assert forall|x: u64| covered(list, x) || x == b implies covered(now, x) by {
        if x == b {
            assert(now[p].0 <= x < now[p].0 + now[p].1);
        } else {
            let u = choose|u: int| 0 <= u < list.len() && (#[trigger] list[u]).0 <= x < list[u].0 + list[u].1;
            if u != p {
                assert(now[u] == list[u]);
            }
            assert(now[u].0 <= x < now[u].0 + now[u].1);
        }
    }
    assert forall|t: int| 0 <= t < now.len() implies (#[trigger] now[t]).0 + now[t].1 <= count by {
        if t != p {
            assert(now[t] == list[t]);
        } else {
            assert(list[p].0 + list[p].1 <= count);
        }
    }
    assert forall|t: int, u: int| 0 <= t < u < now.len() implies (#[trigger] now[t]).0 + now[t].1 <= (#[trigger] now[u]).0 by {
        if u == p {
            assert(now[t] == list[t]);
            assert(list[t].0 + list[t].1 <= b);
        } else {
            assert(now[u] == list[u]);
            if t != p {
                assert(now[t] == list[t]);
            }
            assert(list[t].0 + list[t].1 <= list[u].0);
        }
    }
    assert forall|j: int| 0 <= j < chain.len() implies !covered(now, #[trigger] chain[j]) by {
        assert(!covered(list, chain[j]));
        assert(chain.contains(chain[j]));
    }
}

/// The block `b` goes into the list as an extent of its own at the dividing
/// place.
pub proof fn lemma_put_between(list: Seq<(u64, u64)>, chain: Seq<u64>, count: nat, p: int, b: u64)
    requires
        tidy(list, chain, count),
        count <= u64::MAX,
        divides(list, p, b),
        b < count,
        !chain.contains(b),
    ensures
        gained(list, list.insert(p, (b, 1u64)), chain, count, b),
{
    let now = list.insert(p, (b, 1u64));
    lemma_total_insert(list, p, b);
    assert forall|u: int| 0 <= u < now.len() implies #[trigger] now[u] == (if u < p {
        list[u]
    } else if u == p {
        (b, 1u64)
    } else {
        list[u - 1]
    }) by {}
    assert forall|x: u64| covered(now, x) implies covered(list, x) || x == b by {
        let u = choose|u: int| 0 <= u < now.len() && (#[trigger] now[u]).0 <= x < now[u].0 + now[u].1;
        if u < p {
            assert(list[u] == now[u]);
        } else if u > p {
            assert(list[u - 1] == now[u]);
        }
    }
    assert forall|x: u64| covered(list, x) || x == b implies covered(now, x) by {
        if x == b {
            assert(now[p].0 <= x < now[p].0 + now[p].1);
        } else {
            let u = choose|u: int| 0 <= u < list.len() && (#[trigger] list[u]).0 <= x < list[u].0 + list[u].1;
            if u < p {
                assert(now[u] == list[u]);
                assert(now[u].0 <= x < now[u].0 + now[u].1);
            } else {
                assert(now[u + 1] == list[u]);
                assert(now[u + 1].0 <= x < now[u + 1].0 + now[u + 1].1);
            }
        }
    }
    assert forall|t: int| 0 <= t < now.len() implies (#[trigger] now[t]).0 + now[t].1 <= count by {
        if t < p {
            assert(now[t] == list[t]);
        } else if t > p {
            assert(now[t] == list[t - 1]);
        }
    }
    assert forall|t: int, u: int| 0 <= t < u < now.len() implies (#[trigger] now[t]).0 + now[t].1 <= (#[trigger] now[u]).0 by {
        let a = if t < p {
            t
        } else {
            t - 1
        };
        let c = if u < p {
            u
        } else {
            u - 1
        };
        if t == p {
            assert(now[u] == list[u - 1]);
            assert(list[u - 1].0 > b);
        } else if u == p {
            assert(now[t] == list[t]);
            assert(list[t].0 + list[t].1 <= b);
        } else {
            assert(now[t] == list[a]);
            assert(now[u] == list[c]);
            assert(list[a].0 + list[a].1 <= list[c].0);
        }
    }
    assert forall|j: int| 0 <= j < chain.len() implies !covered(now, #[trigger] chain[j]) by {
        assert(!covered(list, chain[j]));
        assert(chain.contains(chain[j]));
    }
}

/// A device of blocks of 24 bytes or more has fewer blocks than `u64` has
/// values.
pub proof fn lemma_count_below(count: nat, block_len: nat)
    requires
        block_len >= 2,
        count * block_len <= u64::MAX,
    ensures
        count < u64::MAX,
{
    assert(count * 2 <= count * block_len) by (nonlinear_arith)
        requires
            block_len >= 2,
    ;
}

/// The entries of the leaves in front of place `j` all end at `b` or before
/// it.
pub open spec fn passed(shown: Seq<Seq<u8>>, m: u64, chain: Seq<u64>, j: int, b: u64) -> bool {
    forall|u: int|
        0 <= u < extents(shown, m, chain.subrange(0, j), 0).len() ==> (#[trigger] extents(
            shown,
            m,
            chain.subrange(0, j),
            0,
        )[u]).0 + extents(shown, m, chain.subrange(0, j), 0)[u].1 <= b
}

/// Extents that a place divides at `b` do not hold `b`.
pub proof fn lemma_divides_clear(list: Seq<(u64, u64)>, p: int, b: u64)
    requires
        divides(list, p, b),
    ensures
        !covered(list, b),
{
    if covered(list, b) {
        let t = choose|t: int| 0 <= t < list.len() && (#[trigger] list[t]).0 <= b < list[t].0 + list[t].1;
        if t < p {
            assert(list[t].0 + list[t].1 <= b);
        } else {
            assert(list[t].0 > b);
        }
    }
}

/// A leaf whose keys are all at `b` or below and whose last entry ends at `b`
/// or before it can be passed.
pub proof fn lemma_pushed_onward(shown: Seq<Seq<u8>>, m: u64, chain: Seq<u64>, j: int, b: u64)
    requires
        0 <= j < chain.len(),
        tidy(extents(shown, m, chain, 0), chain, shown.len()),
        passed(shown, m, chain, j, b),
        ahead(entries(node_at(shown, m, chain[j])), b) == entries(node_at(shown, m, chain[j])).len(),
        ahead_at(entries(node_at(shown, m, chain[j])), ahead(entries(node_at(shown, m, chain[j])), b), b),
        !holds_at(entries(node_at(shown, m, chain[j])), entries(node_at(shown, m, chain[j])).len() as int, b),
    ensures
        passed(shown, m, chain, j + 1, b),
{
    let all = extents(shown, m, chain, 0);
    let head = extents(shown, m, chain.subrange(0, j), 0);
    let leaf = entries(node_at(shown, m, chain[j]));
    let tail = extents(shown, m, chain, j + 1);
    let upto = chain.subrange(0, j + 1);
    lemma_extents_split(shown, m, chain, j);
    assert(extents(shown, m, chain, j) == leaf + tail);
    assert(all =~= head + leaf + tail);
    lemma_extents_split(shown, m, upto, j);
    assert(upto.subrange(0, j) =~= chain.subrange(0, j));
    assert(upto[j] == chain[j]);
    assert(extents(shown, m, upto, j + 1) =~= Seq::<(u64, u64)>::empty());
    assert(extents(shown, m, upto, j) =~= leaf);
    assert(extents(shown, m, upto, 0) =~= head + leaf);
    assert forall|u: int| 0 <= u < (head + leaf).len() implies (#[trigger] (head + leaf)[u]).0 + (head + leaf)[u].1 <= b by {
        if u < head.len() {
            assert((head + leaf)[u] == head[u]);
        } else {
            let w = u - head.len();
            assert((head + leaf)[u] == leaf[w]);
            assert(all[u] == leaf[w]);
            if w + 1 < leaf.len() {
                assert(all[u + 1] == leaf[w + 1]);
                assert(all[u].0 + all[u].1 <= all[u + 1].0);
                assert(leaf[w + 1].0 <= b);
            } else {
                assert(leaf[w].0 <= b);
            }
        }
    }
}

/// What the entries are around a leaf that the block `b` belongs into at
/// place `t`: the place in the whole list divides the list at `b`.
#[verifier::spinoff_prover]
#[verifier::rlimit(100)]
pub proof fn lemma_pushed_place(shown: Seq<Seq<u8>>, m: u64, chain: Seq<u64>, j: int, b: u64)
    requires
        0 <= j < chain.len(),
        tidy(extents(shown, m, chain, 0), chain, shown.len()),
        passed(shown, m, chain, j, b),
        ahead_at(entries(node_at(shown, m, chain[j])), ahead(entries(node_at(shown, m, chain[j])), b), b),
        !holds_at(entries(node_at(shown, m, chain[j])), ahead(entries(node_at(shown, m, chain[j])), b), b),
        ahead(entries(node_at(shown, m, chain[j])), b) < entries(node_at(shown, m, chain[j])).len() || node_at(
            shown,
            m,
            chain[j],
        ).next == NO_BLOCK,
        chained(shown, m, chain),
    ensures
        extents(shown, m, chain, 0) == extents(shown, m, chain.subrange(0, j), 0) + entries(node_at(shown, m, chain[j]))
            + extents(shown, m, chain, j + 1),
        divides(
            extents(shown, m, chain, 0),
            extents(shown, m, chain.subrange(0, j), 0).len() + ahead(entries(node_at(shown, m, chain[j])), b),
            b,
        ),
{
    let all = extents(shown, m, chain, 0);
    let head = extents(shown, m, chain.subrange(0, j), 0);
    let leaf = entries(node_at(shown, m, chain[j]));
    let tail = extents(shown, m, chain, j + 1);
    let t = ahead(leaf, b);
    let p = head.len() + t;
    lemma_extents_split(shown, m, chain, j);
    assert(extents(shown, m, chain, j) == leaf + tail);
    assert(all =~= head + leaf + tail);
    if j + 1 == chain.len() {
        assert(tail =~= Seq::<(u64, u64)>::empty());
    }
    assert forall|u: int| 0 <= u < p implies (#[trigger] all[u]).0 + all[u].1 <= b by {
        if u < head.len() {
            assert(all[u] == head[u]);
        } else {
            let w = u - head.len();
            assert(all[u] == leaf[w]);
            if w + 1 < t {
                assert(all[u + 1] == leaf[w + 1]);
                assert(all[u].0 + all[u].1 <= all[u + 1].0);
                assert(leaf[w + 1].0 <= b);
            } else {
                assert(leaf[w].0 <= b);
            }
        }
    }
    assert forall|u: int| p <= u < all.len() implies (#[trigger] all[u]).0 > b by {
        if t < leaf.len() {
            assert(all[p] == leaf[t]);
            if u > p {
                assert(all[p].0 + all[p].1 <= all[u].0);
            }
        }
    }
}

/// A list in whose middle part the block `b` was given back at the place
/// that divides the whole list at `b` is tidy and holds `b` besides what it
/// held.
pub proof fn lemma_given_back(
    head: Seq<(u64, u64)>,
    leaf: Seq<(u64, u64)>,
    tail: Seq<(u64, u64)>,
    t: int,
    chain: Seq<u64>,
    count: nat,
    b: u64,
)
    requires
        0 <= t <= leaf.len(),
        tidy(head + leaf + tail, chain, count),
        count <= u64::MAX,
        divides(head + leaf + tail, head.len() + t, b),
        b < count,
        !chain.contains(b),
    ensures
        gained(head + leaf + tail, head + given_back(leaf, t, b) + tail, chain, count, b),
        given_back_to(head + leaf + tail, head + given_back(leaf, t, b) + tail, b),
{
    let all = head + leaf + tail;
    let now = head + given_back(leaf, t, b) + tail;
    let p = head.len() + t;
    if meets_left(leaf, t, b) {
        assert(all[p - 1] == leaf[t - 1]);
        lemma_grow_left(all, chain, count, p, b);
        assert(now =~= all.update(p - 1, (all[p - 1].0, (all[p - 1].1 + 1) as u64)));
        assert(meets_left(all, p, b));
    } else if meets_right(leaf, t, b) {
        assert(all[p] == leaf[t]);
        lemma_grow_right(all, chain, count, p, b);
        assert(now =~= all.update(p, (b, (all[p].1 + 1) as u64)));
        assert(meets_right(all, p, b));
    } else {
        lemma_put_between(all, chain, count, p, b);
        assert(now =~= all.insert(p, (b, 1u64)));
    }
    assert(divides(all, p, b));
}

/// A leaf that took the block `b` at the place where `b` belongs leaves the
/// extents tidy, with `b` among their blocks, and the chain sound.
#[verifier::spinoff_prover]
#[verifier::rlimit(100)]
pub proof fn lemma_pushed_done(shown: Seq<Seq<u8>>, now: Seq<Seq<u8>>, m: u64, chain: Seq<u64>, j: int, b: u64)
    requires
        0 <= j < chain.len(),
        chained(shown, m, chain),
        tidy(extents(shown, m, chain, 0), chain, shown.len()),
        b < shown.len(),
        !chain.contains(b),
        passed(shown, m, chain, j, b),
        only_block_changed(shown, now, chain[j]),
        node_at(now, m, chain[j]).next == node_at(shown, m, chain[j]).next,
        node_at(now, m, chain[j]).num_keys < m,
        ahead_at(entries(node_at(shown, m, chain[j])), ahead(entries(node_at(shown, m, chain[j])), b), b),
        !holds_at(entries(node_at(shown, m, chain[j])), ahead(entries(node_at(shown, m, chain[j])), b), b),
        ahead(entries(node_at(shown, m, chain[j])), b) < entries(node_at(shown, m, chain[j])).len() || node_at(
            shown,
            m,
            chain[j],
        ).next == NO_BLOCK,
        entries(node_at(now, m, chain[j])) == given_back(
            entries(node_at(shown, m, chain[j])),
            ahead(entries(node_at(shown, m, chain[j])), b),
            b,
        ),
    ensures
        !covered(extents(shown, m, chain, 0), b),
        gained(extents(shown, m, chain, 0), extents(now, m, chain, 0), chain, shown.len(), b),
        given_back_to(extents(shown, m, chain, 0), extents(now, m, chain, 0), b),
        chained(now, m, chain),
{
    let all = extents(shown, m, chain, 0);
    let head = extents(shown, m, chain.subrange(0, j), 0);
    let leaf = entries(node_at(shown, m, chain[j]));
    let tail = extents(shown, m, chain, j + 1);
    let t = ahead(leaf, b);
    let leaf2 = entries(node_at(now, m, chain[j]));
    lemma_pushed_place(shown, m, chain, j, b);
    assert forall|q: int| 0 <= q < chain.len() && q != j implies now[(#[trigger] chain[q]) as int] == shown[chain[q] as int] by {
    }
    lemma_extents_split(now, m, chain, j);
    lemma_extents_frame(shown, now, m, chain, j + 1);
    assert forall|q: int| 0 <= q < chain.subrange(0, j).len() implies now[(#[trigger] chain.subrange(0, j)[q]) as int]
        == shown[chain.subrange(0, j)[q] as int] by {
        assert(chain.subrange(0, j)[q] == chain[q]);
    }
    lemma_extents_frame(shown, now, m, chain.subrange(0, j), 0);
    let all2 = extents(now, m, chain, 0);
    assert(extents(now, m, chain, j) == leaf2 + tail);
    assert(all2 =~= head + leaf2 + tail);
    lemma_divides_clear(all, head.len() + t, b);
    lemma_given_back(head, leaf, tail, t, chain, shown.len(), b);
}

/// A leaf whose entry in front of the place of `b` holds `b` shows that the
/// extents hold `b`.
pub proof fn lemma_pushed_held(shown: Seq<Seq<u8>>, m: u64, chain: Seq<u64>, j: int, b: u64)
    requires
        0 <= j < chain.len(),
        holds_at(entries(node_at(shown, m, chain[j])), ahead(entries(node_at(shown, m, chain[j])), b), b),
        ahead_at(entries(node_at(shown, m, chain[j])), ahead(entries(node_at(shown, m, chain[j])), b), b),
    ensures
        covered(extents(shown, m, chain, 0), b),
{
    let all = extents(shown, m, chain, 0);
    let head = extents(shown, m, chain.subrange(0, j), 0);
    let leaf = entries(node_at(shown, m, chain[j]));
    let tail = extents(shown, m, chain, j + 1);
    let t = ahead(leaf, b);
    lemma_extents_split(shown, m, chain, j);
    assert(extents(shown, m, chain, j) == leaf + tail);
    assert(all =~= head + leaf + tail);
    assert(all[head.len() + t - 1] == leaf[t - 1]);
}

/// A full leaf that the block `b` belongs into shows that the extents do not
/// hold `b`.
pub proof fn lemma_pushed_full(shown: Seq<Seq<u8>>, m: u64, chain: Seq<u64>, j: int, b: u64)
    requires
        0 <= j < chain.len(),
        chained(shown, m, chain),
        tidy(extents(shown, m, chain, 0), chain, shown.len()),
        passed(shown, m, chain, j, b),
        ahead_at(entries(node_at(shown, m, chain[j])), ahead(entries(node_at(shown, m, chain[j])), b), b),
        !holds_at(entries(node_at(shown, m, chain[j])), ahead(entries(node_at(shown, m, chain[j])), b), b),
        ahead(entries(node_at(shown, m, chain[j])), b) < entries(node_at(shown, m, chain[j])).len() || node_at(
            shown,
            m,
            chain[j],
        ).next == NO_BLOCK,
    ensures
        !covered(extents(shown, m, chain, 0), b),
{
    lemma_pushed_place(shown, m, chain, j, b);
    lemma_divides_clear(
        extents(shown, m, chain, 0),
        extents(shown, m, chain.subrange(0, j), 0).len() + ahead(entries(node_at(shown, m, chain[j])), b),
        b,
    );
}

} // verus!
