//! The keys of ordered maps, in ascending order, and sets of pairs.
use std::collections::{BTreeMap, BTreeSet};
use vstd::prelude::*;
use vstd::std_specs::btree::*;
#[allow(unused_imports)]
use vstd::std_specs::cmp::OrdSpec;
use vstd::std_specs::iter::IteratorSpec;

verus! {

/// The first `n` of the keys that `all` refers to.
pub open spec fn collected<K>(all: Seq<&K>, n: int) -> Seq<K> {
    all.unref().take(n)
}

/// `a` comes before `b` in the order of their type.
spec fn before<K: Ord>(a: K, b: K) -> bool {
    a.cmp_spec(&b) is Less
}

/// The keys of a map by time.
pub fn i64_keys<V>(map: &BTreeMap<i64, V>) -> (keys: Vec<i64>)
    ensures
        forall|i: int, j: int|
            #![trigger keys@[i], keys@[j]]
            0 <= i < j < keys@.len() ==> keys@[i] < keys@[j],
        forall|k: i64| #[trigger] keys@.contains(k) <==> map@.contains_key(k),
        keys@.len() == map@.dom().len(),
{
    broadcast use group_btree_axioms;
    broadcast use vstd::laws_cmp::group_laws_cmp;

    let mut keys: Vec<i64> = Vec::new();
    for k in it: map.keys()
        invariant
            keys@ == collected(it.seq(), it.index()),
            it.seq() == map.keys().remaining(),
    {
        keys.push(*k);
        assert(keys@ =~= collected(it.seq(), it.index() + 1));
    }
    proof {
        let all = spec_keys_iter(map).remaining();
        assert(keys@ =~= all.unref());
        assert forall|k: i64| #[trigger] keys@.contains(k) <==> map@.contains_key(k) by {
            assert(all.unref().to_set().contains(k) <==> all.unref().contains(k));
        }
        assert(increasing_seq(all));
        assert forall|i: int, j: int|
            #![trigger keys@[i], keys@[j]]
            0 <= i < j < keys@.len() implies keys@[i] < keys@[j] by {
            assert(vstd::laws_cmp::obeys_cmp::<&i64>());
            assert(before::<&i64>(all[i], all[j]));
            assert(before::<i64>(*all[i], *all[j]));
        }
    }
    keys
}

/// The keys of a map by series.
pub fn u64_keys<V>(map: &BTreeMap<u64, V>) -> (keys: Vec<u64>)
    ensures
        forall|i: int, j: int|
            #![trigger keys@[i], keys@[j]]
            0 <= i < j < keys@.len() ==> keys@[i] < keys@[j],
        forall|k: u64| #[trigger] keys@.contains(k) <==> map@.contains_key(k),
        keys@.len() == map@.dom().len(),
{
    broadcast use group_btree_axioms;
    broadcast use vstd::laws_cmp::group_laws_cmp;

    let mut keys: Vec<u64> = Vec::new();
    for k in it: map.keys()
        invariant
            keys@ == collected(it.seq(), it.index()),
            it.seq() == map.keys().remaining(),
    {
        keys.push(*k);
        assert(keys@ =~= collected(it.seq(), it.index() + 1));
    }
    proof {
        let all = spec_keys_iter(map).remaining();
        assert(keys@ =~= all.unref());
        assert forall|k: u64| #[trigger] keys@.contains(k) <==> map@.contains_key(k) by {
            assert(all.unref().to_set().contains(k) <==> all.unref().contains(k));
        }
        assert(increasing_seq(all));
        assert forall|i: int, j: int|
            #![trigger keys@[i], keys@[j]]
            0 <= i < j < keys@.len() implies keys@[i] < keys@[j] by {
            assert(vstd::laws_cmp::obeys_cmp::<&u64>());
            assert(before::<&u64>(all[i], all[j]));
            assert(before::<u64>(*all[i], *all[j]));
        }
    }
    keys
}

/// The keys of a map by identifier.
pub fn u128_keys<V>(map: &BTreeMap<u128, V>) -> (keys: Vec<u128>)
    ensures
        forall|i: int, j: int|
            #![trigger keys@[i], keys@[j]]
            0 <= i < j < keys@.len() ==> keys@[i] < keys@[j],
        forall|k: u128| #[trigger] keys@.contains(k) <==> map@.contains_key(k),
        keys@.len() == map@.dom().len(),
{
    broadcast use group_btree_axioms;
    broadcast use vstd::laws_cmp::group_laws_cmp;

    let mut keys: Vec<u128> = Vec::new();
    for k in it: map.keys()
        invariant
            keys@ == collected(it.seq(), it.index()),
            it.seq() == map.keys().remaining(),
    {
        keys.push(*k);
        assert(keys@ =~= collected(it.seq(), it.index() + 1));
    }
    proof {
        let all = spec_keys_iter(map).remaining();
        assert(keys@ =~= all.unref());
        assert forall|k: u128| #[trigger] keys@.contains(k) <==> map@.contains_key(k) by {
            assert(all.unref().to_set().contains(k) <==> all.unref().contains(k));
        }
        assert(increasing_seq(all));
        assert forall|i: int, j: int|
            #![trigger keys@[i], keys@[j]]
            0 <= i < j < keys@.len() implies keys@[i] < keys@[j] by {
            assert(vstd::laws_cmp::obeys_cmp::<&u128>());
            assert(before::<&u128>(all[i], all[j]));
            assert(before::<u128>(*all[i], *all[j]));
        }
    }
    keys
}

/// Puts a pair into a set, and says whether it is new there.
pub fn insert_pair(set: &mut BTreeSet<(u128, u64)>, source: u128, sequence: u64) -> (new: bool)
    ensures
        new == !old(set)@.contains((source, sequence)),
        final(set)@ == old(set)@.insert((source, sequence)),
{
    broadcast use group_btree_axioms;
    broadcast use vstd::laws_cmp::group_laws_cmp;

    assert(vstd::laws_cmp::obeys_cmp::<(u128, u64)>());
    set.insert((source, sequence))
}

/// Whether `keys` are the members of a set, in ascending order.
pub open spec fn ascending_ids(keys: Seq<u128>, ids: Set<u128>) -> bool {
    &&& forall|i: int, j: int|
        #![trigger keys[i], keys[j]]
        0 <= i < j < keys.len() ==> keys[i] < keys[j]
    &&& forall|k: u128| #[trigger] keys.contains(k) <==> ids.contains(k)
}

/// The members of a finite set of identifiers in ascending order.
pub open spec fn sorted_ids(ids: Set<u128>) -> Seq<u128> {
    choose|keys: Seq<u128>| ascending_ids(keys, ids)
}

/// A set of identifiers has only one ascending order.
pub proof fn ascending_order_is_unique(a: Seq<u128>, b: Seq<u128>, ids: Set<u128>, n: int)
    requires
        ascending_ids(a, ids),
        ascending_ids(b, ids),
        0 <= n <= a.len(),
    ensures
        n <= b.len(),
        a.take(n) == b.take(n),
    decreases n,
{
    if n > 0 {
        ascending_order_is_unique(a, b, ids, n - 1);
        let k = a[n - 1];
        assert(a.contains(k));
        assert(b.contains(k));
        let at = b.index_of(k);
        if at < n - 1 {
            assert(b.take(n - 1)[at] == a.take(n - 1)[at]);
            assert(a[at] < a[n - 1]);
        }
        if at > n - 1 {
            let other = b[n - 1];
            assert(other < k);
            assert(b.contains(other));
            assert(a.contains(other));
            let x = a.index_of(other);
            if x > n - 1 {
                assert(a[n - 1] < a[x]);
            } else if x < n - 1 {
                assert(b.take(n - 1)[x] == a.take(n - 1)[x]);
                assert(b[x] < b[n - 1]);
            }
        }
        assert(a.take(n) =~= a.take(n - 1).push(a[n - 1]));
        assert(b.take(n) =~= b.take(n - 1).push(b[n - 1]));
    }
}

pub proof fn lemma_sorted(keys: Seq<u128>, ids: Set<u128>)
    requires
        ascending_ids(keys, ids),
    ensures
        keys == sorted_ids(ids),
{
    let other = sorted_ids(ids);
    ascending_order_is_unique(keys, other, ids, keys.len() as int);
    ascending_order_is_unique(other, keys, ids, other.len() as int);
    assert(keys.take(keys.len() as int) =~= keys);
    assert(other.take(other.len() as int) =~= other);
}

/// A finite set that is not empty has a highest member.
proof fn lemma_highest(ids: Set<u128>) -> (high: u128)
    requires
        ids.finite(),
        ids.len() > 0,
    ensures
        ids.contains(high),
        forall|k: u128| #[trigger] ids.contains(k) ==> k <= high,
    decreases ids.len(),
{
    let some = ids.choose();
    let rest = ids.remove(some);
    if rest.len() == 0 {
        assert forall|k: u128| #[trigger] ids.contains(k) implies k <= some by {
            if k != some {
                assert(rest.contains(k));
            }
        }
        some
    } else {
        let high = lemma_highest(rest);
        assert forall|k: u128| #[trigger] ids.contains(k) implies k <= some || k <= high by {
            if k != some {
                assert(rest.contains(k));
            }
        }
        if some > high {
            some
        } else {
            high
        }
    }
}

proof fn lemma_some_order(ids: Set<u128>) -> (keys: Seq<u128>)
    requires
        ids.finite(),
    ensures
        ascending_ids(keys, ids),
        keys.len() == ids.len(),
    decreases ids.len(),
{
    if ids.len() == 0 {
        Seq::empty()
    } else {
        let high = lemma_highest(ids);
        let front = lemma_some_order(ids.remove(high));
        let keys = front.push(high);
        assert forall|i: int, j: int|
            #![trigger keys[i], keys[j]]
            0 <= i < j < keys.len() implies keys[i] < keys[j] by {
            if j == front.len() {
                assert(front.contains(front[i]));
            }
        }
        assert forall|k: u128| #[trigger] keys.contains(k) <==> ids.contains(k) by {
            if keys.contains(k) && k != high {
                let i = keys.index_of(k);
                assert(front[i] == k);
                assert(front.contains(k));
            }
            if ids.contains(k) {
                if k == high {
                    assert(keys[front.len() as int] == k);
                } else {
                    assert(front.contains(k));
                    assert(keys[front.index_of(k)] == k);
                }
            }
        }
        keys
    }
}

/// The members of a finite set in ascending order are all of them, each once.
pub proof fn sorted_ids_hold_each_once(ids: Set<u128>)
    requires
        ids.finite(),
    ensures
        ascending_ids(sorted_ids(ids), ids),
        sorted_ids(ids).len() == ids.len(),
{
    let keys = lemma_some_order(ids);
    lemma_sorted(keys, ids);
}

} // verus!
