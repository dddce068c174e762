//! The load order: registry positions sorted by priority, then by order,
//! with equal keys left as the registry has them.

use vstd::prelude::*;
use vstd::seq_lib::seq_to_set_is_finite;
use vstd::set_lib::{lemma_int_range, lemma_subset_equality, set_int_range};

verus! {

/// Whether key `a` sorts no later than key `b`: by the first component, then
/// by the second.
pub open spec fn key_le(a: (u32, u32), b: (u32, u32)) -> bool {
    a.0 < b.0 || (a.0 == b.0 && a.1 <= b.1)
}

/// Whether position `i` loads before position `j`: its key is smaller, or the
/// keys are equal and `i` comes first in the registry.
pub open spec fn loads_before(keys: Seq<(u32, u32)>, i: int, j: int) -> bool {
    if keys[i] == keys[j] {
        i < j
    } else {
        key_le(keys[i], keys[j])
    }
}

/// Whether `order` lists the first `n` positions of `keys`, each once, in the
/// order of loading. `loads_before` never holds both ways, so the last clause
/// keeps a position from occurring twice.
pub open spec fn orders_first(order: Seq<int>, keys: Seq<(u32, u32)>, n: int) -> bool {
    &&& order.len() == n
    &&& forall|k: int| 0 <= k < order.len() ==> 0 <= #[trigger] order[k] < n
    &&& forall|a: int, b: int|
        0 <= a < b < order.len() ==> loads_before(keys, #[trigger] order[a], #[trigger] order[b])
}

/// Whether `order` lists every position of `keys` in the order of loading.
pub open spec fn is_load_order(order: Seq<int>, keys: Seq<(u32, u32)>) -> bool {
    orders_first(order, keys, keys.len() as int)
}

/// Where a position with key `key` goes into `order`: behind the last entry
/// whose key sorts no later than `key`.
pub open spec fn slot(order: Seq<int>, keys: Seq<(u32, u32)>, key: (u32, u32)) -> int
    decreases order.len(),
{
    if order.len() == 0 {
        0
    } else if key_le(keys[order.last()], key) {
        order.len() as int
    } else {
        slot(order.drop_last(), keys, key)
    }
}

/// The first `n` positions of `keys` in the order of loading: each position
/// in turn takes its slot among those before it.
pub open spec fn order_of_first(keys: Seq<(u32, u32)>, n: nat) -> Seq<int>
    decreases n,
{
    if n == 0 {
        Seq::empty()
    } else {
        let before = order_of_first(keys, (n - 1) as nat);
        before.insert(slot(before, keys, keys[n - 1]), n - 1)
    }
}

/// The positions of `keys` in the order of loading.
pub open spec fn load_order(keys: Seq<(u32, u32)>) -> Seq<int> {
    order_of_first(keys, keys.len())
}

/// The positions that a vector of indices stands for.
pub open spec fn positions(order: Seq<usize>) -> Seq<int> {
    Seq::new(order.len(), |k: int| order[k] as int)
}

/// The slot lies within the order, the entry before it sorts no later than
/// `key`, and every entry from it on sorts later.
pub proof fn lemma_slot(order: Seq<int>, keys: Seq<(u32, u32)>, key: (u32, u32))
    ensures
        0 <= slot(order, keys, key) <= order.len(),
        slot(order, keys, key) > 0 ==> key_le(keys[order[slot(order, keys, key) - 1]], key),
        forall|k: int|
            slot(order, keys, key) <= k < order.len() ==> !key_le(keys[#[trigger] order[k]], key),
    decreases order.len(),
{
    if order.len() > 0 && !key_le(keys[order.last()], key) {
        lemma_slot(order.drop_last(), keys, key);
        let s = slot(order, keys, key);
        assert forall|k: int| s <= k < order.len() implies !key_le(
            keys[#[trigger] order[k]],
            key,
        ) by {
            if k < order.len() - 1 {
                assert(order[k] == order.drop_last()[k]);
            }
        }
    }
}

/// The constructed order of the first `n` positions is an order of loading.
pub proof fn lemma_order_of_first(keys: Seq<(u32, u32)>, n: nat)
    requires
        n <= keys.len(),
    ensures
        orders_first(order_of_first(keys, n), keys, n as int),
    decreases n,
{
    if n > 0 {
        let before = order_of_first(keys, (n - 1) as nat);
        lemma_order_of_first(keys, (n - 1) as nat);
        lemma_slot(before, keys, keys[n - 1]);
        let s = slot(before, keys, keys[n - 1]);
        let after = before.insert(s, n - 1);
        assert forall|a: int, b: int| 0 <= a < b < after.len() implies loads_before(
            keys,
            #[trigger] after[a],
            #[trigger] after[b],
        ) by {
            if b < s {
                assert(after[a] == before[a] && after[b] == before[b]);
            } else if b == s {
                // `after[a]` stands before the slot: its key sorts no later
                // than that of the entry just before the slot.
                assert(after[a] == before[a]);
                if a < s - 1 {
                    assert(loads_before(keys, before[a], before[s - 1]));
                }
            } else if a < s {
                assert(after[a] == before[a] && after[b] == before[b - 1]);
            } else if a == s {
                assert(after[b] == before[b - 1]);
            } else {
                assert(after[a] == before[a - 1] && after[b] == before[b - 1]);
            }
        }
        assert forall|k: int| 0 <= k < after.len() implies 0 <= #[trigger] after[k] < n by {
            if k < s {
                assert(after[k] == before[k]);
            } else if k > s {
                assert(after[k] == before[k - 1]);
            }
        }
    }
}

/// An order of loading holds each of the positions once.
pub proof fn lemma_order_holds_each_once(order: Seq<int>, keys: Seq<(u32, u32)>, n: int)
    requires
        orders_first(order, keys, n),
    ensures
        order.no_duplicates(),
        forall|i: int| 0 <= i < n ==> order.contains(i),
{
    assert forall|a: int, b: int|
        0 <= a < order.len() && 0 <= b < order.len() && a != b implies order[a] != order[b] by {
        if a < b {
            assert(loads_before(keys, order[a], order[b]));
        } else {
            assert(loads_before(keys, order[b], order[a]));
        }
    }
    order.unique_seq_to_set();
    lemma_int_range(0, n);
    assert forall|i: int| order.to_set().contains(i) implies set_int_range(0, n).contains(i) by {
        let k = choose|k: int| 0 <= k < order.len() && order[k] == i;
        assert(0 <= order[k] < n);
    }
    seq_to_set_is_finite(order);
    lemma_subset_equality(order.to_set(), set_int_range(0, n));
    assert forall|i: int| 0 <= i < n implies order.contains(i) by {
        assert(set_int_range(0, n).contains(i));
    }
}

/// An order of loading without the last position is an order of loading
/// of the positions before it.
proof fn lemma_order_without_last(order: Seq<int>, keys: Seq<(u32, u32)>, n: int, p: int)
    requires
        orders_first(order, keys, n),
        0 <= p < order.len(),
        order[p] == n - 1,
    ensures
        orders_first(order.remove(p), keys, n - 1),
{
    let rest = order.remove(p);
    lemma_order_holds_each_once(order, keys, n);
    assert forall|k: int| 0 <= k < rest.len() implies 0 <= #[trigger] rest[k] < n - 1 by {
        let from = if k < p { k } else { k + 1 };
        assert(rest[k] == order[from]);
    }
    assert forall|a: int, b: int| 0 <= a < b < rest.len() implies loads_before(
        keys,
        #[trigger] rest[a],
        #[trigger] rest[b],
    ) by {
        let from_a = if a < p { a } else { a + 1 };
        let from_b = if b < p { b } else { b + 1 };
        assert(rest[a] == order[from_a] && rest[b] == order[from_b]);
    }
}

/// There is one order of loading only.
pub proof fn lemma_order_unique(first: Seq<int>, second: Seq<int>, keys: Seq<(u32, u32)>, n: int)
    requires
        orders_first(first, keys, n),
        orders_first(second, keys, n),
    ensures
        first == second,
    decreases n,
{
    if n <= 0 {
        assert(first =~= second);
    } else {
        lemma_order_holds_each_once(first, keys, n);
        lemma_order_holds_each_once(second, keys, n);
        assert(first.contains(n - 1) && second.contains(n - 1));
        let p = choose|k: int| 0 <= k < first.len() && first[k] == n - 1;
        let q = choose|k: int| 0 <= k < second.len() && second[k] == n - 1;
        let rest_first = first.remove(p);
        let rest_second = second.remove(q);
        lemma_order_without_last(first, keys, n, p);
        lemma_order_without_last(second, keys, n, q);
        lemma_order_unique(rest_first, rest_second, keys, n - 1);
        // The position left out stands at one place in both: an entry between
        // the two places would load before it and after it.
        if p < q {
            assert(rest_first[p] == first[p + 1]);
            assert(rest_second[p] == second[p]);
            assert(loads_before(keys, first[p], first[p + 1]));
            assert(loads_before(keys, second[p], second[q]));
        } else if q < p {
            assert(rest_second[q] == second[q + 1]);
            assert(rest_first[q] == first[q]);
            assert(loads_before(keys, second[q], second[q + 1]));
            assert(loads_before(keys, first[q], first[p]));
        }
        assert(first =~= rest_first.insert(p, n - 1));
        assert(second =~= rest_second.insert(q, n - 1));
    }
}

/// Whether key `a` sorts no later than key `b`.
pub fn sorts_no_later(a: (u32, u32), b: (u32, u32)) -> (r: bool)
    ensures
        r == key_le(a, b),
{
    a.0 < b.0 || (a.0 == b.0 && a.1 <= b.1)
}

/// Sorts the positions of `keys` by key, stably: the order in which the
/// plugins with these keys load.
pub fn sorted_positions(keys: &Vec<(u32, u32)>) -> (order: Vec<usize>)
    ensures
        positions(order@) == load_order(keys@),
        is_load_order(positions(order@), keys@),
{
    let mut order: Vec<usize> = Vec::new();
    let mut i: usize = 0;
    while i < keys.len()
        invariant
            i <= keys.len(),
            positions(order@) =~= order_of_first(keys@, i as nat),
            orders_first(positions(order@), keys@, i as int),
        decreases keys.len() - i,
    {
        let key = keys[i];
        let ghost before = positions(order@);
        let mut at: usize = order.len();
        assert(before.take(at as int) =~= before);
        while at > 0 && !sorts_no_later(keys[order[at - 1]], key)
            invariant
                at <= order.len(),
                order.len() == i,
                i < keys.len(),
                before == positions(order@),
                orders_first(before, keys@, i as int),
                slot(before, keys@, key) == slot(before.take(at as int), keys@, key),
            decreases at,
        {
            assert(before.take(at as int).drop_last() =~= before.take(at - 1));
            at -= 1;
        }
        proof {
            lemma_order_of_first(keys@, (i + 1) as nat);
        }
        order.insert(at, i);
        assert(positions(order@) =~= before.insert(at as int, i as int));
        i += 1;
    }
    order
}

} // verus!
