//! Graphs of records that depend on other records: cycles, and an order in which
//! every record comes behind those it depends on.
use crate::map_keys::u128_keys;
#[allow(unused_imports)]
use crate::map_keys::{lemma_sorted, sorted_ids};
use std::collections::{BTreeMap, BTreeSet};
use vstd::prelude::*;
use vstd::std_specs::btree::*;

verus! {

/// What each record depends on.
pub type Links = Map<u128, Seq<u128>>;

/// The links that a map of lists holds.
pub open spec fn links(map: Map<u128, Vec<u128>>) -> Links {
    map.map_values(|v: Vec<u128>| v@)
}

/// Whether `a` depends on `b`.
pub open spec fn depends(g: Links, a: u128, b: u128) -> bool {
    g.contains_key(a) && g[a].contains(b)
}

/// Whether all that is depended on is there.
pub open spec fn complete(g: Links) -> bool {
    forall|a: u128, b: u128| #[trigger] depends(g, a, b) ==> g.contains_key(b)
}

/// Whether each record of a sequence depends on the next.
pub open spec fn is_path(g: Links, p: Seq<u128>) -> bool {
    forall|i: int, j: int|
        #![trigger p[i], p[j]]
        0 <= i && j == i + 1 && j < p.len() ==> depends(g, p[i], p[j])
}

/// Whether a record depends on itself, directly or through others.
pub open spec fn on_cycle(g: Links, id: u128) -> bool {
    exists|p: Seq<u128>| #[trigger] is_path(g, p) && p.len() >= 2 && p[0] == id && p.last() == id
}

/// Whether each record stands above all it depends on.
pub open spec fn ranked(g: Links, rank: Map<u128, int>) -> bool {
    forall|a: u128, b: u128| #[trigger] depends(g, a, b) ==> rank[b] < rank[a]
}

/// Whether no record depends on itself.
pub open spec fn acyclic(g: Links) -> bool {
    exists|rank: Map<u128, int>| ranked(g, rank)
}

proof fn lemma_rank_falls(g: Links, rank: Map<u128, int>, p: Seq<u128>, n: int)
    requires
        ranked(g, rank),
        is_path(g, p),
        1 <= n < p.len(),
    ensures
        rank[p[n]] < rank[p[0]],
    decreases n,
{
    assert(depends(g, p[n - 1], p[n]));
    if n > 1 {
        lemma_rank_falls(g, rank, p, n - 1);
    }
}

/// Where every record can be ranked above what it depends on, none is on a cycle.
pub proof fn acyclic_means_no_cycle(g: Links, id: u128)
    requires
        acyclic(g),
    ensures
        !on_cycle(g, id),
{
    let rank = choose|rank: Map<u128, int>| ranked(g, rank);
    if on_cycle(g, id) {
        let p = choose|p: Seq<u128>| #[trigger]
            is_path(g, p) && p.len() >= 2 && p[0] == id && p.last() == id;
        lemma_rank_falls(g, rank, p, p.len() - 1);
    }
}

/// A visit of a record inside the visits under way, `path`, outermost first, where
/// those of `done` have been finished: the record on the path that it comes to again, if
/// it comes to one, and the records that are finished then. All that a record depends on
/// is visited before it is finished, the last of its list first.
pub open spec fn visited(g: Links, done: Set<u128>, path: Seq<u128>, id: u128) -> (
    Option<u128>,
    Set<u128>,
)
    decreases g.dom().len() - path.len(), 0nat,
{
    if done.contains(id) {
        (None, done)
    } else if path.contains(id) {
        (Some(id), done)
    } else if path.len() >= g.dom().len() {
        (None, done)
    } else {
        let (met, after) = visited_all(g, done, path.push(id), g[id]);
        if met is Some {
            (met, after)
        } else {
            (None, after.insert(id))
        }
    }
}

/// Visits of some records, the last first, up to one that comes to a record again.
pub open spec fn visited_all(g: Links, done: Set<u128>, path: Seq<u128>, list: Seq<u128>) -> (
    Option<u128>,
    Set<u128>,
)
    decreases g.dom().len() - path.len(), list.len() + 1,
{
    if list.len() == 0 {
        (None, done)
    } else {
        let (met, after) = visited(g, done, path, list.last());
        if met is Some {
            (met, after)
        } else {
            visited_all(g, after, path, list.drop_last())
        }
    }
}

/// Visits of the first `n` of some records, in their order, up to one that comes to a
/// record again.
pub open spec fn walked(g: Links, roots: Seq<u128>, n: nat) -> (Option<u128>, Set<u128>)
    decreases n,
{
    if n == 0 {
        (None, Set::empty())
    } else {
        let (met, done) = walked(g, roots, (n - 1) as nat);
        if met is Some {
            (met, done)
        } else {
            visited(g, done, Seq::empty(), roots[n - 1])
        }
    }
}

/// The record that a walk through all records comes to again first, if it comes to one.
/// It starts from each record in ascending order.
pub open spec fn first_met_again(g: Links) -> Option<u128> {
    let roots = sorted_ids(g.dom());
    walked(g, roots, roots.len()).0
}

/// What comes of the visits on a stack, the topmost first.
spec fn unwound(g: Links, stack: Seq<(u128, bool)>, done: Set<u128>) -> (Option<u128>, Set<u128>)
    decreases stack.len(),
{
    if stack.len() == 0 {
        (None, done)
    } else {
        let (id, finish) = stack.last();
        let below = stack.drop_last();
        if finish {
            unwound(g, below, done.insert(id))
        } else {
            let (met, after) = visited(g, done, active_path(below), id);
            if met is Some {
                (met, after)
            } else {
                unwound(g, below, after)
            }
        }
    }
}

/// The visits of some records that are still to be begun.
spec fn to_visit(list: Seq<u128>) -> Seq<(u128, bool)> {
    Seq::new(list.len(), |i: int| (list[i], false))
}

proof fn lemma_unwound_needs(
    g: Links,
    base: Seq<(u128, bool)>,
    list: Seq<u128>,
    done: Set<u128>,
)
    ensures
        active_path(base + to_visit(list)) == active_path(base),
        unwound(g, base + to_visit(list), done) == {
            let (met, after) = visited_all(g, done, active_path(base), list);
            if met is Some {
                (met, after)
            } else {
                unwound(g, base, after)
            }
        },
    decreases list.len(),
{
    let stack = base + to_visit(list);
    if list.len() == 0 {
        assert(stack =~= base);
    } else {
        let shorter = list.drop_last();
        assert(stack.drop_last() =~= base + to_visit(shorter));
        assert(stack.last() == (list.last(), false));
        let (met, after) = visited(g, done, active_path(base), list.last());
        lemma_unwound_needs(g, base, shorter, after);
    }
}

/// The records whose visit is finished.
spec fn finished(states: Map<u128, bool>) -> Set<u128> {
    Set::new(|a: u128| states.contains_key(a) && states[a])
}

/// The records whose visit is under way, outermost first.
spec fn active_path(stack: Seq<(u128, bool)>) -> Seq<u128>
    decreases stack.len(),
{
    if stack.len() == 0 {
        Seq::empty()
    } else {
        let below = active_path(stack.drop_last());
        if stack.last().1 {
            below.push(stack.last().0)
        } else {
            below
        }
    }
}

/// Whether the innermost visit below position `k` asked for the record there.
spec fn asked_for(g: Links, stack: Seq<(u128, bool)>, k: int) -> bool {
    let below = active_path(stack.take(k));
    g.contains_key(stack[k].0) && (below.len() > 0 ==> depends(g, below.last(), stack[k].0))
}

spec fn all_asked_for(g: Links, stack: Seq<(u128, bool)>) -> bool {
    forall|k: int| 0 <= k < stack.len() ==> #[trigger] asked_for(g, stack, k)
}

proof fn lemma_active_path(g: Links, stack: Seq<(u128, bool)>)
    requires
        all_asked_for(g, stack),
    ensures
        is_path(g, active_path(stack)),
    decreases stack.len(),
{
    if stack.len() > 0 {
        let shorter = stack.drop_last();
        assert forall|k: int| 0 <= k < shorter.len() implies #[trigger] asked_for(g, shorter, k) by {
            assert(asked_for(g, stack, k));
            assert(shorter.take(k) =~= stack.take(k));
        }
        lemma_active_path(g, shorter);
        assert(asked_for(g, stack, stack.len() - 1));
        assert(stack.take(stack.len() - 1) =~= shorter);
    }
}

proof fn lemma_asked_prefix(g: Links, stack: Seq<(u128, bool)>)
    requires
        all_asked_for(g, stack),
        stack.len() > 0,
    ensures
        all_asked_for(g, stack.drop_last()),
{
    let shorter = stack.drop_last();
    assert forall|k: int| 0 <= k < shorter.len() implies #[trigger] asked_for(g, shorter, k) by {
        assert(asked_for(g, stack, k));
        assert(shorter.take(k) =~= stack.take(k));
    }
}

proof fn lemma_asked_push(g: Links, stack: Seq<(u128, bool)>, entry: (u128, bool))
    requires
        all_asked_for(g, stack),
        g.contains_key(entry.0),
        active_path(stack).len() > 0 ==> depends(g, active_path(stack).last(), entry.0),
    ensures
        all_asked_for(g, stack.push(entry)),
{
    let longer = stack.push(entry);
    assert forall|k: int| 0 <= k < longer.len() implies #[trigger] asked_for(g, longer, k) by {
        if k < stack.len() {
            assert(asked_for(g, stack, k));
            assert(longer.take(k) =~= stack.take(k));
        } else {
            assert(longer.take(k) =~= stack);
        }
    }
}

/// Whether what an open visit depends on has been finished or is still to be
/// looked at.
spec fn awaited(
    g: Links,
    done: Map<u128, bool>,
    stack: Seq<(u128, bool)>,
) -> bool {
    forall|k: int, b: u128|
        #![trigger stack[k], depends(g, stack[k].0, b)]
        0 <= k < stack.len() && stack[k].1 && depends(g, stack[k].0, b) ==> (done.contains_key(b)
            && done[b]) || above(stack, k, b)
}

spec fn above(stack: Seq<(u128, bool)>, k: int, b: u128) -> bool {
    exists|m: int| k < m < stack.len() && (#[trigger] stack[m]).0 == b
}

/// Whether each finished record was finished behind all it depends on.
spec fn finished_in_order(g: Links, states: Map<u128, bool>, rank: Map<u128, int>, next: int) -> bool {
    &&& forall|a: u128| #[trigger] states.contains_key(a) && states[a] ==> rank[a] < next
    &&& forall|a: u128, b: u128| #[trigger]
        depends(g, a, b) && states.contains_key(a) && states[a] ==> states.contains_key(b)
            && states[b] && rank[b] < rank[a]
}

/// Whether the visits under way are those on the stack.
spec fn states_match(g: Links, states: Map<u128, bool>, stack: Seq<(u128, bool)>) -> bool {
    &&& states.dom().subset_of(g.dom())
    &&& active_path(stack).no_duplicates()
    &&& forall|a: u128|
        (states.contains_key(a) && !states[a]) <==> #[trigger] active_path(stack).contains(a)
}

proof fn lemma_unvisited_shrinks(all: Set<u128>, seen: Set<u128>, id: u128)
    requires
        all.finite(),
        all.contains(id),
        !seen.contains(id),
    ensures
        all.difference(seen.insert(id)).len() < all.difference(seen).len(),
{
    assert(all.difference(seen.insert(id)) =~= all.difference(seen).remove(id));
    assert(all.difference(seen).contains(id));
}

/// A path of distinct members of a set is shorter than the set while a member is not on
/// it.
proof fn lemma_path_fits(path: Seq<u128>, id: u128, all: Set<u128>)
    requires
        all.finite(),
        path.no_duplicates(),
        forall|a: u128| #[trigger] path.contains(a) ==> all.contains(a),
        all.contains(id),
        !path.contains(id),
    ensures
        path.len() < all.len(),
{
    path.unique_seq_to_set();
    assert forall|a: u128| #[trigger] path.to_set().contains(a) implies all.remove(id).contains(
        a,
    ) by {
        assert(path.contains(a));
    }
    assert(path.to_set().subset_of(all.remove(id)));
    vstd::set_lib::lemma_len_subset(path.to_set(), all.remove(id));
}

/// Visits `root` and all it depends on that has not been visited yet.
#[verifier::loop_isolation(false)]
#[verifier::rlimit(40)]
fn visit(
    map: &BTreeMap<u128, Vec<u128>>,
    states: &mut BTreeMap<u128, bool>,
    root: u128,
    Ghost(rank): Ghost<Map<u128, int>>,
    Ghost(next): Ghost<int>,
) -> (outcome: (Option<u128>, Ghost<Map<u128, int>>, Ghost<int>))
    requires
        complete(links(map@)),
        map@.contains_key(root),
        old(states)@.dom().subset_of(map@.dom()),
        forall|a: u128| #[trigger] old(states)@.contains_key(a) ==> old(states)@[a],
        finished_in_order(links(map@), old(states)@, rank, next),
    ensures
        outcome.0 matches Some(id) ==> on_cycle(links(map@), id),
        outcome.0 == visited(links(map@), finished(old(states)@), Seq::empty(), root).0,
        outcome.0 is None ==> finished(final(states)@) == visited(
            links(map@),
            finished(old(states)@),
            Seq::empty(),
            root,
        ).1,
        outcome.0 is None ==> {
            &&& final(states)@.dom().subset_of(map@.dom())
            &&& forall|a: u128| #[trigger] final(states)@.contains_key(a) ==> final(states)@[a]
            &&& finished_in_order(links(map@), final(states)@, outcome.1@, outcome.2@)
            &&& final(states)@.contains_key(root)
            &&& old(states)@.dom().subset_of(final(states)@.dom())
        },
{
    broadcast use group_btree_axioms;

    let ghost g = links(map@);
    let ghost mut rank = rank;
    let ghost mut next = next;
    let mut stack: Vec<(u128, bool)> = Vec::new();
    stack.push((root, false));
    proof {
        assert(stack@.drop_last() =~= Seq::<(u128, bool)>::empty());
        assert(active_path(Seq::<(u128, bool)>::empty()) =~= Seq::<u128>::empty());
        assert forall|k: int| 0 <= k < stack@.len() implies #[trigger] asked_for(g, stack@, k) by {
            assert(stack@.take(k) =~= Seq::<(u128, bool)>::empty());
        }
    }
    let ghost mut root_pending = true;
    assert(stack@ =~= seq![(root, false)]);
    let ghost goal = visited(g, finished(states@), Seq::empty(), root);
    proof {
        assert(unwound(g, Seq::<(u128, bool)>::empty(), goal.1) == (None::<u128>, goal.1));
        assert(unwound(g, stack@, finished(states@)) == goal);
    }
    while stack.len() > 0
        invariant
            all_asked_for(g, stack@),
            states_match(g, states@, stack@),
            awaited(g, states@, stack@),
            finished_in_order(g, states@, rank, next),
            old(states)@.dom().subset_of(states@.dom()),
            root_pending ==> stack@ == seq![(root, false)],
            !root_pending ==> states@.contains_key(root),
            unwound(g, stack@, finished(states@)) == goal,
        decreases map@.dom().difference(states@.dom()).len(), stack@.len(),
    {
        let ghost full = stack@;
        let ghost before = states@;
        proof {
            lemma_asked_prefix(g, full);
            assert(asked_for(g, full, full.len() - 1));
            assert(full.take(full.len() - 1) =~= full.drop_last());
        }
        let entry: (u128, bool) = match stack.pop() {
            Some(entry) => entry,
            None => (0, false),
        };
        let id: u128 = entry.0;
        let ghost below = stack@;
        assert(below =~= full.drop_last());
        assert(full.last() == entry);
        if entry.1 {
            // Everything that `id` depends on has been finished.
            proof {
                assert forall|b: u128| #[trigger] depends(g, id, b) implies before.contains_key(b)
                    && before[b] by {
                    assert(full[full.len() - 1].1);
                    assert(depends(g, full[full.len() - 1].0, b));
                }
                assert(active_path(full) == active_path(below).push(id));
                assert(active_path(full).contains(id)) by {
                    assert(active_path(full)[active_path(full).len() - 1] == id);
                }
            }
            states.insert(id, true);
            proof {
                assert(states@.dom() =~= before.dom());
                assert(finished(states@) =~= finished(before).insert(id));
                rank = rank.insert(id, next);
                next = next + 1;
                assert forall|a: u128|
                    (states@.contains_key(a) && !states@[a]) <==> #[trigger] active_path(
                        below,
                    ).contains(a) by {
                    let path = active_path(full);
                    if active_path(below).contains(a) {
                        let i = active_path(below).index_of(a);
                        assert(path[i] == a);
                        assert(path[path.len() - 1] == id);
                        assert(path.contains(a));
                    }
                    if states@.contains_key(a) && !states@[a] {
                        assert(path.contains(a));
                        let i = path.index_of(a);
                        assert(active_path(below)[i] == a);
                    }
                }
                assert(active_path(below) =~= active_path(full).drop_last());
                assert forall|a: u128, b: u128| #[trigger]
                    depends(g, a, b) && states@.contains_key(a)
                        && states@[a] implies states@.contains_key(b) && states@[b] && rank[b]
                    < rank[a] by {
                    if a != id {
                        assert(before.contains_key(a) && before[a]);
                        assert(b != id);
                    } else {
                        assert(before.contains_key(b) && before[b]);
                        assert(b != id);
                    }
                }
                assert forall|k: int, b: u128|
                    #![trigger below[k], depends(g, below[k].0, b)]
                    0 <= k < below.len() && below[k].1 && depends(g, below[k].0, b) implies (
                states@.contains_key(b) && states@[b]) || above(below, k, b) by {
                    assert(full[k] == below[k]);
                    assert(depends(g, full[k].0, b));
                    if !(before.contains_key(b) && before[b]) {
                        let m = choose|m: int| k < m < full.len() && (#[trigger] full[m]).0 == b;
                        if m < below.len() {
                            assert(below[m].0 == b);
                        } else {
                            assert(b == id);
                        }
                    }
                }
            }
            continue ;
        }
        assert(active_path(full) == active_path(below));
        match states.get(&id) {
            Some(finished) => {
                if *finished {
                    proof {
                        assert forall|k: int, b: u128|
                            #![trigger below[k], depends(g, below[k].0, b)]
                            0 <= k < below.len() && below[k].1 && depends(
                                g,
                                below[k].0,
                                b,
                            ) implies (states@.contains_key(b) && states@[b]) || above(
                            below,
                            k,
                            b,
                        ) by {
                            assert(full[k] == below[k]);
                            assert(depends(g, full[k].0, b));
                            if !(before.contains_key(b) && before[b]) {
                                let m = choose|m: int|
                                    k < m < full.len() && (#[trigger] full[m]).0 == b;
                                if m < below.len() {
                                    assert(below[m].0 == b);
                                }
                            }
                        }
                        root_pending = false;
                    }
                    continue ;
                }
                proof {
                    let path = active_path(below);
                    assert(path.contains(id));
                    lemma_active_path(g, below);
                    let i = path.index_of(id);
                    let cycle = path.skip(i).push(id);
                    assert forall|a: int, b: int|
                        #![trigger cycle[a], cycle[b]]
                        0 <= a && b == a + 1 && b < cycle.len() implies depends(
                        g,
                        cycle[a],
                        cycle[b],
                    ) by {
                        if b < cycle.len() - 1 {
                            assert(cycle[a] == path[i + a]);
                            assert(cycle[b] == path[i + b]);
                        } else {
                            assert(cycle[a] == path[path.len() - 1]);
                        }
                    }
                    assert(is_path(g, cycle));
                    assert(cycle[0] == id && cycle.last() == id);
                }
                return (Some(id), Ghost(rank), Ghost(next));
            },
            None => {},
        }
        proof {
            lemma_unvisited_shrinks(map@.dom(), states@.dom(), id);
            lemma_asked_push(g, below, (id, true));
        }
        states.insert(id, false);
        stack.push((id, true));
        let ghost marked = stack@;
        proof {
            root_pending = false;
            assert(marked.drop_last() =~= below);
            assert(active_path(marked) == active_path(below).push(id));
            let path = active_path(marked);
            assert(!active_path(below).contains(id));
            assert forall|a: u128|
                (states@.contains_key(a) && !states@[a]) <==> #[trigger] path.contains(a) by {
                if path.contains(a) && a != id {
                    let i = path.index_of(a);
                    assert(active_path(below)[i] == a);
                    assert(active_path(below).contains(a));
                }
                if active_path(below).contains(a) {
                    assert(path[active_path(below).index_of(a)] == a);
                }
                assert(path[path.len() - 1] == id);
            }
            assert(states@.dom() =~= before.dom().insert(id));
            assert(finished(states@) =~= finished(before));
            lemma_path_fits(active_path(below), id, map@.dom());
        }
        match map.get(&id) {
            Some(needs) => {
                assert(g[id] == needs@);
                let mut i: usize = 0;
                while i < needs.len()
                    invariant
                        i <= needs@.len(),
                        g.contains_key(id),
                        g[id] == needs@,
                        stack@.len() == marked.len() + i,
                        forall|k: int| 0 <= k < marked.len() ==> #[trigger] stack@[k] == marked[k],
                        forall|k: int|
                            0 <= k < i ==> #[trigger] stack@[marked.len() + k] == (
                                needs@[k],
                                false,
                            ),
                        active_path(stack@) == active_path(marked),
                        all_asked_for(g, stack@),
                    decreases needs@.len() - i,
                {
                    let ghost now = stack@;
                    proof {
                        assert(needs@[i as int] == needs@[i as int]);
                        assert(depends(g, id, needs@[i as int]));
                        lemma_asked_push(g, now, (needs@[i as int], false));
                    }
                    stack.push((needs[i], false));
                    assert(stack@.drop_last() =~= now);
                    i = i + 1;
                }
                proof {
                    let asked = marked + to_visit(needs@);
                    assert forall|k: int| 0 <= k < stack@.len() implies #[trigger] stack@[k]
                        == asked[k] by {
                        if k >= marked.len() {
                            assert(stack@[marked.len() + (k - marked.len())] == (
                                needs@[k - marked.len()],
                                false,
                            ));
                        }
                    }
                    assert(stack@ =~= asked);
                    lemma_unwound_needs(g, marked, needs@, finished(states@));
                    assert(g.dom() =~= map@.dom());
                    assert(!finished(before).contains(id));
                    let (met, after) = visited_all(
                        g,
                        finished(before),
                        active_path(below).push(id),
                        g[id],
                    );
                    assert(visited(g, finished(before), active_path(below), id) == if met is Some {
                        (met, after)
                    } else {
                        (None, after.insert(id))
                    });
                    assert(unwound(g, marked, after) == unwound(g, below, after.insert(id)));
                    assert forall|k: int, b: u128|
                        #![trigger stack@[k], depends(g, stack@[k].0, b)]
                        0 <= k < stack@.len() && stack@[k].1 && depends(
                            g,
                            stack@[k].0,
                            b,
                        ) implies (states@.contains_key(b) && states@[b]) || above(
                        stack@,
                        k,
                        b,
                    ) by {
                        if k >= marked.len() {
                            assert(stack@[marked.len() + (k - marked.len())] == (
                                needs@[k - marked.len()],
                                false,
                            ));
                        } else if k == marked.len() - 1 {
                            assert(stack@[k] == marked[k]);
                            let j = needs@.index_of(b);
                            assert(stack@[marked.len() + j].0 == b);
                        } else {
                            assert(stack@[k] == marked[k]);
                            assert(marked[k] == below[k]);
                            assert(full[k] == below[k]);
                            assert(depends(g, full[k].0, b));
                            if !(before.contains_key(b) && before[b]) {
                                let m = choose|m: int|
                                    k < m < full.len() && (#[trigger] full[m]).0 == b;
                                if m < below.len() {
                                    assert(stack@[m] == marked[m]);
                                    assert(stack@[m].0 == b);
                                } else {
                                    assert(stack@[marked.len() - 1] == marked[marked.len() - 1]);
                                    assert(stack@[marked.len() - 1].0 == b);
                                }
                            }
                        }
                    }
                    assert forall|a: u128, b: u128| #[trigger]
                        depends(g, a, b) && states@.contains_key(a)
                            && states@[a] implies states@.contains_key(b) && states@[b] && rank[b]
                        < rank[a] by {
                        assert(before.contains_key(a) && before[a]);
                    }
                }
            },
            None => {},
        }
    }
    proof {
        assert(active_path(stack@) =~= Seq::<u128>::empty());
        assert forall|a: u128| #[trigger] states@.contains_key(a) implies states@[a] by {
            assert(!active_path(stack@).contains(a));
        }
    }
    (None, Ghost(rank), Ghost(next))
}

/// A walk ends where it comes to a record again.
proof fn lemma_walk_stays(g: Links, roots: Seq<u128>, m: nat, n: nat)
    requires
        m <= n,
        walked(g, roots, m).0 is Some,
    ensures
        walked(g, roots, n) == walked(g, roots, m),
    decreases n,
{
    if m < n {
        lemma_walk_stays(g, roots, m, (n - 1) as nat);
    }
}

/// Looks for a record that depends on itself: the first that a walk through all records
/// comes to again.
pub fn find_cycle(map: &BTreeMap<u128, Vec<u128>>) -> (found: Option<u128>)
    requires
        complete(links(map@)),
    ensures
        found matches Some(id) ==> on_cycle(links(map@), id) && first_met_again(links(map@)) == Some(id),
        found is None ==> acyclic(links(map@)) && first_met_again(links(map@)) is None,
{
    broadcast use group_btree_axioms;

    let ghost g = links(map@);
    let keys = u128_keys(map);
    let mut states: BTreeMap<u128, bool> = BTreeMap::new();
    let ghost mut rank: Map<u128, int> = Map::empty();
    let ghost mut next: int = 0;
    let mut i: usize = 0;
    assert(finished(states@) =~= Set::<u128>::empty());
    assert(g.dom() =~= map@.dom());
    proof {
        lemma_sorted(keys@, g.dom());
    }
    while i < keys.len()
        invariant
            i <= keys@.len(),
            g == links(map@),
            complete(g),
            forall|k: u128| #[trigger] keys@.contains(k) <==> map@.contains_key(k),
            states@.dom().subset_of(map@.dom()),
            forall|a: u128| #[trigger] states@.contains_key(a) ==> states@[a],
            finished_in_order(g, states@, rank, next),
            forall|k: int| 0 <= k < i ==> states@.contains_key(#[trigger] keys@[k]),
            keys@ == sorted_ids(g.dom()),
            walked(g, keys@, i as nat) == (None::<u128>, finished(states@)),
        decreases keys@.len() - i,
    {
        let root: u128 = keys[i];
        let ghost before = states@;
        assert(keys@.contains(root));
        let (found, r, n) = visit(map, &mut states, root, Ghost(rank), Ghost(next));
        if found.is_some() {
            proof {
                lemma_walk_stays(g, keys@, (i + 1) as nat, keys@.len());
            }
            return found;
        }
        proof {
            rank = r@;
            next = n@;
            assert forall|k: int| 0 <= k < i + 1 implies states@.contains_key(
                #[trigger] keys@[k],
            ) by {
                if k < i {
                    assert(before.contains_key(keys@[k]));
                    assert(before.dom().contains(keys@[k]));
                    assert(states@.dom().contains(keys@[k]));
                }
            }
        }
        i = i + 1;
    }
    proof {
        assert forall|a: u128, b: u128| #[trigger] depends(g, a, b) implies rank[b] < rank[a] by {
            assert(map@.contains_key(a));
            assert(keys@.contains(a));
            let k = keys@.index_of(a);
            assert(states@.contains_key(keys@[k]));
        }
        assert(ranked(g, rank));
    }
    None
}


/// Whether `level` counts, for each record, the longest chain of records that it
/// depends on.
pub open spec fn leveled(g: Links, level: Map<u128, int>) -> bool {
    &&& forall|a: u128| #[trigger] g.contains_key(a) ==> level[a] >= 0 && (level[a] == 0 || rests_on(
        g,
        level,
        a,
    ))
    &&& forall|a: u128, b: u128| #[trigger]
        depends(g, a, b) && g.contains_key(b) ==> level[b] < level[a]
}

/// Whether a record depends on one of the level just below its own.
pub open spec fn rests_on(g: Links, level: Map<u128, int>, a: u128) -> bool {
    exists|b: u128| #[trigger] depends(g, a, b) && g.contains_key(b) && level[b] == level[a] - 1
}

/// Whether records stand by ascending level, and by ascending identifier within
/// a level.
pub open spec fn by_level(order: Seq<u128>, level: Map<u128, int>) -> bool {
    forall|i: int, j: int|
        #![trigger order[i], order[j]]
        0 <= i < j < order.len() ==> level[order[i]] < level[order[j]] || (level[order[i]]
            == level[order[j]] && order[i] < order[j])
}

/// Whether `order` holds each record once, level by level.
pub open spec fn snapshot_ordered(g: Links, order: Seq<u128>) -> bool {
    &&& order.no_duplicates()
    &&& forall|k: u128| #[trigger] order.contains(k) <==> g.contains_key(k)
    &&& exists|level: Map<u128, int>| #[trigger] leveled(g, level) && by_level(order, level)
}

/// In such an order every record comes behind all it depends on.
pub proof fn dependencies_come_first(g: Links, order: Seq<u128>, i: int, b: u128)
    requires
        snapshot_ordered(g, order),
        0 <= i < order.len(),
        depends(g, order[i], b),
        g.contains_key(b),
    ensures
        exists|j: int| 0 <= j < i && #[trigger] order[j] == b,
{
    let level = choose|level: Map<u128, int>| #[trigger]
        leveled(g, level) && by_level(order, level);
    assert(order.contains(b));
    let j = order.index_of(b);
    assert(order[j] == b);
    if i <= j {
        assert(level[order[i]] <= level[order[j]]);
    }
}

/// A set of ranked records has one that stands lowest.
proof fn lemma_lowest(rank: Map<u128, int>, s: Set<u128>) -> (low: u128)
    requires
        s.finite(),
        s.len() > 0,
    ensures
        s.contains(low),
        forall|x: u128| #[trigger] s.contains(x) ==> rank[low] <= rank[x],
    decreases s.len(),
{
    let some = s.choose();
    let rest = s.remove(some);
    if rest.len() == 0 {
        assert forall|x: u128| #[trigger] s.contains(x) implies x == some by {
            if x != some {
                assert(rest.contains(x));
            }
        }
        some
    } else {
        let other = lemma_lowest(rank, rest);
        let low = if rank[some] <= rank[other] {
            some
        } else {
            other
        };
        assert forall|x: u128| #[trigger] s.contains(x) implies rank[low] <= rank[x] by {
            if x != some {
                assert(rest.contains(x));
            }
        }
        low
    }
}

/// Whether `a` depends on a record of `s`.
spec fn leans_on(g: Links, s: Set<u128>, a: u128) -> bool {
    exists|b: u128| #[trigger] depends(g, a, b) && s.contains(b)
}

/// Whether all of `needs` are out of `remaining`.
fn ready(needs: &Vec<u128>, remaining: &BTreeSet<u128>) -> (yes: bool)
    ensures
        yes == (forall|b: u128| #[trigger] needs@.contains(b) ==> !remaining@.contains(b)),
{
    broadcast use group_btree_axioms;

    let mut i: usize = 0;
    while i < needs.len()
        invariant
            i <= needs@.len(),
            forall|k: int| 0 <= k < i ==> !remaining@.contains(#[trigger] needs@[k]),
        decreases needs@.len() - i,
    {
        if remaining.contains(&needs[i]) {
            assert(needs@.contains(needs@[i as int]));
            return false;
        }
        i = i + 1;
    }
    true
}

/// An order in which every record comes behind those it depends on: level by
/// level, and within a level by identifier. There is one unless records depend on
/// each other in a circle.
#[verifier::loop_isolation(false)]
#[verifier::rlimit(40)]
pub fn snapshot_order(map: &BTreeMap<u128, Vec<u128>>) -> (order: Option<Vec<u128>>)
    ensures
        order matches Some(o) ==> snapshot_ordered(links(map@), o@),
        order is None ==> !acyclic(links(map@)),
{
    broadcast use group_btree_axioms;

    let ghost g = links(map@);
    let keys = u128_keys(map);
    let mut remaining: BTreeSet<u128> = BTreeSet::new();
    let mut i: usize = 0;
    while i < keys.len()
        invariant
            i <= keys@.len(),
            remaining@.finite(),
            forall|k: u128| #[trigger] remaining@.contains(k) <==> keys@.take(i as int).contains(k),
        decreases keys@.len() - i,
    {
        remaining.insert(keys[i]);
        proof {
            let longer = keys@.take(i + 1);
            assert(longer =~= keys@.take(i as int).push(keys@[i as int]));
            assert forall|k: u128| #[trigger] remaining@.contains(k) <==> longer.contains(k) by {
                if keys@.take(i as int).contains(k) {
                    assert(longer[keys@.take(i as int).index_of(k)] == k);
                }
                if longer.contains(k) && k != keys@[i as int] {
                    assert(keys@.take(i as int)[longer.index_of(k)] == k);
                }
                assert(longer[i as int] == keys@[i as int]);
            }
        }
        i = i + 1;
    }
    assert(keys@.take(i as int) =~= keys@);
    let mut order: Vec<u128> = Vec::new();
    let ghost mut level: Map<u128, int> = Map::empty();
    let ghost mut round: int = 0;
    while remaining.len() > 0
        invariant
            round >= 0,
            remaining@.finite(),
            forall|k: u128| #[trigger] remaining@.contains(k) ==> g.contains_key(k),
            forall|k: u128| #[trigger]
                order@.contains(k) <==> g.contains_key(k) && !remaining@.contains(k),
            order@.no_duplicates(),
            by_level(order@, level),
            forall|k: u128| #[trigger] order@.contains(k) ==> 0 <= level[k] < round,
            forall|k: u128| #[trigger]
                order@.contains(k) ==> level[k] == 0 || rests_on(g, level, k),
            forall|a: u128, b: u128| #[trigger]
                depends(g, a, b) && order@.contains(a) && g.contains_key(b) ==> order@.contains(b)
                    && level[b] < level[a],
            forall|a: u128| #[trigger]
                remaining@.contains(a) ==> round == 0 || exists|b: u128| #[trigger]
                    depends(g, a, b) && g.contains_key(b) && (remaining@.contains(b) || level[b]
                        == round - 1),
        decreases remaining@.len(),
    {
        let ghost rest = remaining@;
        let ghost placed = order@;
        let ghost old_level = level;
        let mut now: Vec<u128> = Vec::new();
        let mut k: usize = 0;
        while k < keys.len()
            invariant
                k <= keys@.len(),
                forall|x: u128| #[trigger]
                    now@.contains(x) <==> keys@.take(k as int).contains(x) && rest.contains(x)
                        && !leans_on(g, rest, x),
                forall|a: int, b: int|
                    #![trigger now@[a], now@[b]]
                    0 <= a < b < now@.len() ==> now@[a] < now@[b],
                forall|a: int| 0 <= a < now@.len() && k < keys@.len() ==> #[trigger] now@[a]
                    < keys@[k as int],
            decreases keys@.len() - k,
        {
            let id: u128 = keys[k];
            let ghost sofar = now@;
            let mut take: bool = false;
            if remaining.contains(&id) {
                match map.get(&id) {
                    Some(needs) => {
                        take = ready(needs, &remaining);
                        proof {
                            assert(g[id] == needs@);
                            if take && leans_on(g, rest, id) {
                                let b = choose|b: u128| #[trigger]
                                    depends(g, id, b) && rest.contains(b);
                                assert(needs@.contains(b));
                            }
                            if !take {
                                let b = choose|b: u128| #[trigger]
                                    needs@.contains(b) && remaining@.contains(b);
                                assert(depends(g, id, b));
                            }
                        }
                    },
                    None => {},
                }
            }
            if take {
                now.push(id);
            }
            proof {
                let shorter = keys@.take(k as int);
                let longer = keys@.take(k + 1);
                assert(longer =~= shorter.push(id));
                assert forall|x: u128| #[trigger]
                    now@.contains(x) <==> longer.contains(x) && rest.contains(x) && !leans_on(
                        g,
                        rest,
                        x,
                    ) by {
                    if longer.contains(x) && x != id {
                        assert(shorter[longer.index_of(x)] == x);
                    }
                    if shorter.contains(x) {
                        assert(longer[shorter.index_of(x)] == x);
                    }
                    assert(longer[k as int] == id);
                    if sofar.contains(x) {
                        assert(now@[sofar.index_of(x)] == x);
                    }
                    if now@.contains(x) && !sofar.contains(x) {
                        let at = now@.index_of(x);
                        if at < sofar.len() {
                            assert(sofar[at] == x);
                        }
                    }
                    if take {
                        assert(now@[now@.len() - 1] == id);
                    }
                    assert(shorter.contains(id) ==> exists|m: int|
                        0 <= m < k && keys@[m] == id);
                }
                assert(forall|a: int|
                    0 <= a < now@.len() && k + 1 < keys@.len() ==> #[trigger] now@[a] < keys@[k
                        + 1]) by {
                    if k + 1 < keys@.len() {
                        assert(keys@[k as int] < keys@[k + 1]);
                    }
                }
            }
            k = k + 1;
        }
        assert(keys@.take(k as int) =~= keys@);
        if now.len() == 0 {
            proof {
                if acyclic(g) {
                    let rank = choose|rank: Map<u128, int>| ranked(g, rank);
                    let low = lemma_lowest(rank, rest);
                    assert(keys@.contains(low));
                    assert(!now@.contains(low));
                    let b = choose|b: u128| #[trigger] depends(g, low, b) && rest.contains(b);
                    assert(rank[b] < rank[low]);
                }
            }
            return None;
        }
        let mut m: usize = 0;
        proof {
            assert(now@.take(0) =~= Seq::<u128>::empty());
            assert(now@.contains(now@[0]));
        }
        while m < now.len()
            invariant
                m <= now@.len(),
                order@ == placed + now@.take(m as int),
                remaining@.finite(),
                m > 0 ==> remaining@.len() < rest.len(),
                m == 0 ==> remaining@ == rest,
                forall|x: u128| #[trigger]
                    remaining@.contains(x) <==> rest.contains(x) && !now@.take(m as int).contains(
                        x,
                    ),
            decreases now@.len() - m,
        {
            let id: u128 = now[m];
            let ghost sofar = remaining@;
            proof {
                assert(now@.contains(id));
                let shorter = now@.take(m as int);
                assert(!shorter.contains(id)) by {
                    if shorter.contains(id) {
                        let at = shorter.index_of(id);
                        assert(now@[at] < now@[m as int]);
                    }
                }
                assert(sofar.contains(id));
            }
            remaining.remove(&id);
            order.push(id);
            proof {
                let shorter = now@.take(m as int);
                let longer = now@.take(m + 1);
                assert(longer =~= shorter.push(id));
                assert forall|x: u128| #[trigger]
                    remaining@.contains(x) <==> rest.contains(x) && !longer.contains(x) by {
                    if longer.contains(x) && x != id {
                        assert(shorter[longer.index_of(x)] == x);
                    }
                    if shorter.contains(x) {
                        assert(longer[shorter.index_of(x)] == x);
                    }
                    assert(longer[m as int] == id);
                }
                assert(order@ =~= placed + longer);
                assert(remaining@ =~= sofar.remove(id));
            }
            m = m + 1;
        }
        assert(now@.take(m as int) =~= now@);
        proof {
            level = Map::new(
                |x: u128| placed.contains(x) || now@.contains(x),
                |x: u128|
                    if now@.contains(x) {
                        round
                    } else {
                        old_level[x]
                    },
            );
            assert forall|x: u128| placed.contains(x) implies !#[trigger] now@.contains(x) by {}
            lemma_round(g, placed, old_level, round, now@, rest, order@, level, remaining@);
            round = round + 1;
        }
    }
    proof {
        assert(leveled(g, level)) by {
            assert forall|a: u128| #[trigger] g.contains_key(a) implies level[a] >= 0 && (level[a]
                == 0 || rests_on(g, level, a)) by {
                assert(order@.contains(a));
            }
            assert forall|a: u128, b: u128| #[trigger]
                depends(g, a, b) && g.contains_key(b) implies level[b] < level[a] by {
                assert(order@.contains(a));
            }
        }
    }
    Some(order)
}

/// One more level keeps what is known of the levels so far.
proof fn lemma_round(
    g: Links,
    placed: Seq<u128>,
    old_level: Map<u128, int>,
    round: int,
    now: Seq<u128>,
    rest: Set<u128>,
    order: Seq<u128>,
    level: Map<u128, int>,
    left: Set<u128>,
)
    requires
        round >= 0,
        order == placed + now,
        placed.no_duplicates(),
        forall|a: int, b: int|
            #![trigger now[a], now[b]]
            0 <= a < b < now.len() ==> now[a] < now[b],
        forall|x: u128| #[trigger] rest.contains(x) ==> g.contains_key(x),
        forall|x: u128| #[trigger]
            placed.contains(x) <==> g.contains_key(x) && !rest.contains(x),
        forall|x: u128| #[trigger]
            now.contains(x) <==> rest.contains(x) && !leans_on(g, rest, x),
        forall|x: u128| #[trigger] left.contains(x) <==> rest.contains(x) && !now.contains(x),
        by_level(placed, old_level),
        forall|k: u128| #[trigger] placed.contains(k) ==> 0 <= old_level[k] < round,
        forall|k: u128| #[trigger]
            placed.contains(k) ==> old_level[k] == 0 || rests_on(g, old_level, k),
        forall|a: u128, b: u128| #[trigger]
            depends(g, a, b) && placed.contains(a) && g.contains_key(b) ==> placed.contains(b)
                && old_level[b] < old_level[a],
        forall|a: u128| #[trigger]
            rest.contains(a) ==> round == 0 || exists|b: u128| #[trigger]
                depends(g, a, b) && g.contains_key(b) && (rest.contains(b) || old_level[b] == round
                    - 1),
        level == Map::new(
            |x: u128| placed.contains(x) || now.contains(x),
            |x: u128|
                if now.contains(x) {
                    round
                } else {
                    old_level[x]
                },
        ),
    ensures
        order.no_duplicates(),
        forall|x: u128| #[trigger] order.contains(x) <==> g.contains_key(x) && !left.contains(x),
        by_level(order, level),
        forall|k: u128| #[trigger] order.contains(k) ==> 0 <= level[k] < round + 1,
        forall|k: u128| #[trigger] order.contains(k) ==> level[k] == 0 || rests_on(g, level, k),
        forall|a: u128, b: u128| #[trigger]
            depends(g, a, b) && order.contains(a) && g.contains_key(b) ==> order.contains(b)
                && level[b] < level[a],
        forall|a: u128| #[trigger]
            left.contains(a) ==> exists|b: u128| #[trigger]
                depends(g, a, b) && g.contains_key(b) && (left.contains(b) || level[b] == round),
{
    assert forall|x: u128| #[trigger] order.contains(x) <==> placed.contains(x) || now.contains(
        x,
    ) by {
        if placed.contains(x) {
            assert(order[placed.index_of(x)] == x);
        }
        if now.contains(x) {
            assert(order[placed.len() + now.index_of(x)] == x);
        }
        if order.contains(x) {
            let at = order.index_of(x);
            if at < placed.len() {
                assert(placed[at] == x);
            } else {
                assert(now[at - placed.len()] == x);
            }
        }
    }
    assert forall|i: int| 0 <= i < placed.len() implies placed.contains(#[trigger] order[i])
        && !now.contains(order[i]) && level[order[i]] == old_level[placed[i]] && order[i]
        == placed[i] by {
        assert(placed.contains(placed[i]));
    }
    assert forall|i: int| placed.len() <= i < order.len() implies now.contains(#[trigger] order[i])
        && level[order[i]] == round && order[i] == now[i - placed.len()] by {
        assert(now.contains(now[i - placed.len()]));
    }
    assert forall|i: int, j: int|
        #![trigger order[i], order[j]]
        0 <= i < j < order.len() implies level[order[i]] < level[order[j]] || (level[order[i]]
        == level[order[j]] && order[i] < order[j]) by {
        if j < placed.len() {
            assert(level[order[i]] == old_level[placed[i]]);
            assert(level[order[j]] == old_level[placed[j]]);
        } else if i < placed.len() {
            assert(placed.contains(placed[i]));
            assert(level[order[i]] < round);
        } else {
            assert(now[i - placed.len()] < now[j - placed.len()]);
        }
    }
    assert(order.no_duplicates()) by {
        assert forall|i: int, j: int| 0 <= i < order.len() && 0 <= j < order.len() && i != j implies
            order[i] != order[j] by {
            if i < j {
                assert(level[order[i]] < level[order[j]] || order[i] < order[j]);
            } else {
                assert(level[order[j]] < level[order[i]] || order[j] < order[i]);
            }
        }
    }
    assert forall|k: u128| #[trigger] order.contains(k) implies level[k] == 0 || rests_on(
        g,
        level,
        k,
    ) by {
        if now.contains(k) {
            if round > 0 {
                let b = choose|b: u128| #[trigger]
                    depends(g, k, b) && g.contains_key(b) && (rest.contains(b) || old_level[b]
                        == round - 1);
                assert(!rest.contains(b));
                assert(placed.contains(b));
                assert(!now.contains(b));
                assert(level[b] == round - 1);
            }
        } else if old_level[k] != 0 {
            let b = choose|b: u128| #[trigger]
                depends(g, k, b) && g.contains_key(b) && old_level[b] == old_level[k] - 1;
            assert(placed.contains(b));
            assert(!now.contains(b));
            assert(level[b] == level[k] - 1);
        }
    }
    assert forall|a: u128, b: u128| #[trigger]
        depends(g, a, b) && order.contains(a) && g.contains_key(b) implies order.contains(b)
        && level[b] < level[a] by {
        if now.contains(a) {
            assert(!rest.contains(b));
            assert(placed.contains(b));
            assert(!now.contains(b));
        } else {
            assert(placed.contains(b));
            assert(!now.contains(b));
        }
    }
    assert forall|a: u128| #[trigger] left.contains(a) implies exists|b: u128| #[trigger]
        depends(g, a, b) && g.contains_key(b) && (left.contains(b) || level[b] == round) by {
        assert(leans_on(g, rest, a));
        let b = choose|b: u128| #[trigger] depends(g, a, b) && rest.contains(b);
        assert(left.contains(b) || now.contains(b));
        assert(depends(g, a, b) && g.contains_key(b) && (left.contains(b) || level[b] == round));
    }
}


/// What a record with at most one dependency depends on.
pub open spec fn next_of(g: Links, id: u128) -> Option<u128> {
    if g.contains_key(id) && g[id].len() > 0 {
        Some(g[id][0])
    } else {
        None
    }
}

/// Whether `p` goes from each record to the one it depends on.
pub open spec fn is_walk(g: Links, p: Seq<u128>) -> bool {
    forall|i: int, j: int|
        #![trigger p[i], p[j]]
        0 <= i && j == i + 1 && j < p.len() ==> next_of(g, p[i]) == Some(p[j])
}

/// Whether the walk from `start` comes back to `again`, and to no record before
/// that.
pub open spec fn walk_repeats(g: Links, start: u128, again: u128) -> bool {
    exists|p: Seq<u128>| #[trigger]
        is_walk(g, p.push(again)) && p.len() > 0 && p[0] == start && p.no_duplicates()
            && p.contains(again)
}

/// Whether the walk from `start` comes to an end.
pub open spec fn walk_ends(g: Links, start: u128) -> bool {
    exists|p: Seq<u128>| #[trigger]
        is_walk(g, p) && p.len() > 0 && p[0] == start && p.no_duplicates() && next_of(g, p.last())
            is None
}

/// Follows dependencies from `start`, and gives the first record that is met twice.
#[verifier::loop_isolation(false)]
pub fn first_repeat(map: &BTreeMap<u128, Vec<u128>>, start: u128) -> (again: Option<u128>)
    ensures
        again matches Some(id) ==> walk_repeats(links(map@), start, id),
        again is None ==> walk_ends(links(map@), start),
{
    broadcast use group_btree_axioms;

    let ghost g = links(map@);
    let mut seen: BTreeSet<u128> = BTreeSet::new();
    let mut current: u128 = start;
    let ghost mut p: Seq<u128> = seq![start];
    seen.insert(start);
    assert(p[0] == start);
    loop
        invariant
            is_walk(g, p),
            p.len() > 0,
            p[0] == start,
            p.last() == current,
            p.no_duplicates(),
            forall|k: u128| #[trigger] seen@.contains(k) <==> p.contains(k),
        decreases g.dom().difference(seen@).len() + (if g.contains_key(current) {
                1nat
            } else {
                0nat
            }),
    {
        let next: Option<u128> = match map.get(&current) {
            Some(needs) => {
                assert(g[current] == needs@);
                if needs.len() > 0 {
                    Some(needs[0])
                } else {
                    None
                }
            },
            None => None,
        };
        match next {
            None => {
                return None;
            },
            Some(id) => {
                proof {
                    let longer = p.push(id);
                    assert forall|i: int, j: int|
                        #![trigger longer[i], longer[j]]
                        0 <= i && j == i + 1 && j < longer.len() implies next_of(g, longer[i])
                        == Some(longer[j]) by {
                        if j < p.len() {
                            assert(longer[i] == p[i] && longer[j] == p[j]);
                        } else {
                            assert(longer[i] == current);
                        }
                    }
                }
                assert(is_walk(g, p.push(id)));
                if seen.contains(&id) {
                    return Some(id);
                }
                proof {
                    let longer = p.push(id);
                    assert(g.dom() =~= map@.dom());
                    assert(!p.contains(id));
                    assert forall|k: u128| longer.contains(k) <==> p.contains(k) || k == id by {
                        if p.contains(k) {
                            assert(longer[p.index_of(k)] == k);
                        }
                        if longer.contains(k) && k != id {
                            assert(p[longer.index_of(k)] == k);
                        }
                        assert(longer[p.len() as int] == id);
                    }
                    if g.contains_key(id) {
                        lemma_unvisited_shrinks(g.dom(), seen@, id);
                    } else {
                        assert(g.dom().difference(seen@.insert(id)) =~= g.dom().difference(seen@));
                    }
                    p = longer;
                }
                seen.insert(id);
                current = id;
            },
        }
    }
}

/// How many records the walk from `start` meets, up to `fuel` of them.
spec fn walk_length(g: Links, start: u128, fuel: nat) -> nat
    decreases fuel,
{
    match next_of(g, start) {
        Some(next) if fuel > 0 => 1 + walk_length(g, next, (fuel - 1) as nat),
        _ => 0,
    }
}

/// A walk that ends is no longer with more fuel than it needs.
proof fn lemma_walk_length(g: Links, p: Seq<u128>, fuel: nat)
    requires
        is_walk(g, p),
        p.len() > 0,
        next_of(g, p.last()) is None,
        fuel >= p.len() - 1,
    ensures
        walk_length(g, p[0], fuel) == p.len() - 1,
    decreases p.len(),
{
    if p.len() > 1 {
        let q = p.skip(1);
        assert(next_of(g, p[0]) == Some(p[1]));
        assert forall|i: int, j: int|
            #![trigger q[i], q[j]]
            0 <= i && j == i + 1 && j < q.len() implies next_of(g, q[i]) == Some(q[j]) by {
            assert(q[i] == p[i + 1] && q[j] == p[j + 1]);
        }
        assert(q.last() == p.last());
        lemma_walk_length(g, q, (fuel - 1) as nat);
        assert(q[0] == p[1]);
    } else {
        assert(p.last() == p[0]);
    }
}

proof fn lemma_walk_is_short(g: Links, p: Seq<u128>)
    requires
        g.dom().finite(),
        is_walk(g, p),
        p.len() > 0,
        p.no_duplicates(),
    ensures
        p.len() <= g.dom().len() + 1,
{
    let front = p.drop_last();
    assert forall|x: u128| front.to_set().contains(x) implies g.dom().contains(x) by {
        let i = front.index_of(x);
        assert(next_of(g, p[i]) == Some(p[i + 1]));
    }
    front.unique_seq_to_set();
    vstd::set_lib::lemma_len_subset(front.to_set(), g.dom());
}

/// Where each record depends on at most one other and every walk ends, no record
/// depends on itself.
pub proof fn ending_walks_are_acyclic(g: Links)
    requires
        g.dom().finite(),
        forall|a: u128| #[trigger] g.contains_key(a) ==> g[a].len() <= 1,
        forall|a: u128| #[trigger] g.contains_key(a) ==> walk_ends(g, a),
    ensures
        acyclic(g),
{
    let fuel = g.dom().len();
    let rank = Map::new(|a: u128| true, |a: u128| walk_length(g, a, fuel) as int);
    assert forall|a: u128, b: u128| #[trigger] depends(g, a, b) implies rank[b] < rank[a] by {
        let p = choose|p: Seq<u128>| #[trigger]
            is_walk(g, p) && p.len() > 0 && p[0] == a && p.no_duplicates() && next_of(g, p.last())
                is None;
        assert(g[a][0] == b);
        assert(next_of(g, a) == Some(b));
        if p.len() == 1 {
            assert(p.last() == p[0]);
        }
        assert(next_of(g, p[0]) == Some(p[1]));
        let q = p.skip(1);
        assert forall|i: int, j: int|
            #![trigger q[i], q[j]]
            0 <= i && j == i + 1 && j < q.len() implies next_of(g, q[i]) == Some(q[j]) by {
            assert(q[i] == p[i + 1] && q[j] == p[j + 1]);
        }
        assert(q.last() == p.last());
        assert(q[0] == b);
        lemma_walk_is_short(g, p);
        lemma_walk_length(g, p, fuel);
        lemma_walk_length(g, q, fuel);
    }
    assert(ranked(g, rank));
}

} // verus!
