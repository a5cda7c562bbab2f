//! Exact point identities: their order, sorting, and how often each occurs.
use crate::model::Point;
use vstd::prelude::*;

verus! {

/// Exact point identity. Values are compared by their bits, so the two zeros are
/// different values.
#[derive(Clone, Copy, Debug, PartialEq, Eq, PartialOrd, Ord, Structural)]
pub struct ShadowPointKey {
    pub series_id: u64,
    pub valid_time: i64,
    pub valid_time_end: i64,
    pub knowledge_time: i64,
    pub change_time: i64,
    pub run_id: u128,
    pub value_bits: u64,
    pub quality: u32,
    pub flags: u32,
}

/// The identity of a point.
pub open spec fn key_of(p: Point) -> ShadowPointKey {
    ShadowPointKey {
        series_id: p.series_id,
        valid_time: p.valid_time,
        valid_time_end: p.valid_time_end,
        knowledge_time: p.knowledge_time,
        change_time: p.change_time,
        run_id: p.run_id,
        value_bits: p.value.0,
        quality: p.quality,
        flags: p.flags,
    }
}

impl From<Point> for ShadowPointKey {
    fn from(point: Point) -> (key: Self) {
        ShadowPointKey {
            series_id: point.series_id,
            valid_time: point.valid_time,
            valid_time_end: point.valid_time_end,
            knowledge_time: point.knowledge_time,
            change_time: point.change_time,
            run_id: point.run_id,
            value_bits: point.value.0,
            quality: point.quality,
            flags: point.flags,
        }
    }
}

impl vstd::std_specs::convert::FromSpecImpl<Point> for ShadowPointKey {
    open spec fn obeys_from_spec() -> bool {
        true
    }

    open spec fn from_spec(point: Point) -> ShadowPointKey {
        key_of(point)
    }
}

/// The order of identities, field by field.
pub open spec fn before(a: ShadowPointKey, b: ShadowPointKey) -> bool {
    if a.series_id != b.series_id {
        a.series_id < b.series_id
    } else if a.valid_time != b.valid_time {
        a.valid_time < b.valid_time
    } else if a.valid_time_end != b.valid_time_end {
        a.valid_time_end < b.valid_time_end
    } else if a.knowledge_time != b.knowledge_time {
        a.knowledge_time < b.knowledge_time
    } else if a.change_time != b.change_time {
        a.change_time < b.change_time
    } else if a.run_id != b.run_id {
        a.run_id < b.run_id
    } else if a.value_bits != b.value_bits {
        a.value_bits < b.value_bits
    } else if a.quality != b.quality {
        a.quality < b.quality
    } else {
        a.flags < b.flags
    }
}

pub fn is_before(a: &ShadowPointKey, b: &ShadowPointKey) -> (yes: bool)
    ensures
        yes == before(*a, *b),
{
    if a.series_id != b.series_id {
        a.series_id < b.series_id
    } else if a.valid_time != b.valid_time {
        a.valid_time < b.valid_time
    } else if a.valid_time_end != b.valid_time_end {
        a.valid_time_end < b.valid_time_end
    } else if a.knowledge_time != b.knowledge_time {
        a.knowledge_time < b.knowledge_time
    } else if a.change_time != b.change_time {
        a.change_time < b.change_time
    } else if a.run_id != b.run_id {
        a.run_id < b.run_id
    } else if a.value_bits != b.value_bits {
        a.value_bits < b.value_bits
    } else if a.quality != b.quality {
        a.quality < b.quality
    } else {
        a.flags < b.flags
    }
}

/// Whether no identity stands behind a greater one.
pub open spec fn in_order(keys: Seq<ShadowPointKey>) -> bool {
    forall|i: int, j: int|
        #![trigger keys[i], keys[j]]
        0 <= i < j < keys.len() ==> !before(keys[j], keys[i])
}

/// How often an identity occurs.
pub open spec fn occurrences(keys: Seq<ShadowPointKey>, k: ShadowPointKey) -> nat
    decreases keys.len(),
{
    if keys.len() == 0 {
        0
    } else {
        occurrences(keys.drop_last(), k) + if keys.last() == k {
            1nat
        } else {
            0nat
        }
    }
}

pub proof fn lemma_occurrences_add(a: Seq<ShadowPointKey>, b: Seq<ShadowPointKey>, k: ShadowPointKey)
    ensures
        occurrences(a + b, k) == occurrences(a, k) + occurrences(b, k),
    decreases b.len(),
{
    if b.len() == 0 {
        assert(a + b =~= a);
    } else {
        assert((a + b).drop_last() =~= a + b.drop_last());
        lemma_occurrences_add(a, b.drop_last(), k);
    }
}

pub proof fn lemma_no_occurrence(keys: Seq<ShadowPointKey>, k: ShadowPointKey)
    requires
        forall|i: int| 0 <= i < keys.len() ==> #[trigger] keys[i] != k,
    ensures
        occurrences(keys, k) == 0,
    decreases keys.len(),
{
    if keys.len() > 0 {
        assert(keys[keys.len() - 1] != k);
        lemma_no_occurrence(keys.drop_last(), k);
    }
}

pub proof fn lemma_only_occurrences(keys: Seq<ShadowPointKey>, k: ShadowPointKey)
    requires
        forall|i: int| 0 <= i < keys.len() ==> #[trigger] keys[i] == k,
    ensures
        occurrences(keys, k) == keys.len(),
    decreases keys.len(),
{
    if keys.len() > 0 {
        assert(keys[keys.len() - 1] == k);
        lemma_only_occurrences(keys.drop_last(), k);
    }
}

pub proof fn lemma_occurs(keys: Seq<ShadowPointKey>, i: int)
    requires
        0 <= i < keys.len(),
    ensures
        occurrences(keys, keys[i]) > 0,
    decreases keys.len(),
{
    if i < keys.len() - 1 {
        lemma_occurs(keys.drop_last(), i);
    }
}

/// Whether two sequences hold the same identities equally often.
pub open spec fn same_contents(a: Seq<ShadowPointKey>, b: Seq<ShadowPointKey>) -> bool {
    forall|k: ShadowPointKey| #[trigger] occurrences(a, k) == occurrences(b, k)
}

#[verifier::loop_isolation(false)]
fn merged(a: &Vec<ShadowPointKey>, b: &Vec<ShadowPointKey>) -> (out: Vec<ShadowPointKey>)
    requires
        in_order(a@),
        in_order(b@),
        a@.len() + b@.len() <= usize::MAX,
    ensures
        in_order(out@),
        same_contents(out@, a@ + b@),
        out@.len() == a@.len() + b@.len(),
{
    let mut out: Vec<ShadowPointKey> = Vec::new();
    let mut i: usize = 0;
    let mut j: usize = 0;
    assert(a@.take(0) + b@.take(0) =~= Seq::<ShadowPointKey>::empty());
    while i < a.len() || j < b.len()
        invariant
            i <= a@.len(),
            j <= b@.len(),
            out@.len() == i + j,
            in_order(out@),
            same_contents(out@, a@.take(i as int) + b@.take(j as int)),
            forall|m: int, k: int|
                #![trigger out@[m], a@[k]]
                0 <= m < out@.len() && i <= k < a@.len() ==> !before(a@[k], out@[m]),
            forall|m: int, k: int|
                #![trigger out@[m], b@[k]]
                0 <= m < out@.len() && j <= k < b@.len() ==> !before(b@[k], out@[m]),
        decreases a@.len() - i + b@.len() - j,
    {
        let ghost sofar = out@;
        let from_a: bool = if i >= a.len() {
            false
        } else if j >= b.len() {
            true
        } else {
            !is_before(&b[j], &a[i])
        };
        if from_a {
            out.push(a[i]);
            proof {
                assert forall|k: ShadowPointKey| #[trigger]
                    occurrences(out@, k) == occurrences(a@.take(i + 1) + b@.take(j as int), k) by {
                    assert(out@.drop_last() =~= sofar);
                    assert(occurrences(sofar, k) == occurrences(
                        a@.take(i as int) + b@.take(j as int),
                        k,
                    ));
                    lemma_occurrences_add(a@.take(i as int), b@.take(j as int), k);
                    lemma_occurrences_add(a@.take(i + 1), b@.take(j as int), k);
                    assert(a@.take(i + 1).drop_last() =~= a@.take(i as int));
                }
            }
            i = i + 1;
        } else {
            out.push(b[j]);
            proof {
                assert forall|k: ShadowPointKey| #[trigger]
                    occurrences(out@, k) == occurrences(a@.take(i as int) + b@.take(j + 1), k) by {
                    assert(out@.drop_last() =~= sofar);
                    assert(occurrences(sofar, k) == occurrences(
                        a@.take(i as int) + b@.take(j as int),
                        k,
                    ));
                    lemma_occurrences_add(a@.take(i as int), b@.take(j as int), k);
                    lemma_occurrences_add(a@.take(i as int), b@.take(j + 1), k);
                    assert(b@.take(j + 1).drop_last() =~= b@.take(j as int));
                }
            }
            j = j + 1;
        }
    }
    assert(a@.take(i as int) =~= a@);
    assert(b@.take(j as int) =~= b@);
    out
}

/// The identities of `keys[from..to]` in ascending order.
fn sorted_part(keys: &Vec<ShadowPointKey>, from: usize, to: usize) -> (out: Vec<ShadowPointKey>)
    requires
        from <= to <= keys@.len(),
    ensures
        in_order(out@),
        same_contents(out@, keys@.subrange(from as int, to as int)),
        out@.len() == to - from,
    decreases to - from,
{
    if to - from <= 1 {
        let mut out: Vec<ShadowPointKey> = Vec::new();
        if from < to {
            out.push(keys[from]);
        }
        assert(out@ =~= keys@.subrange(from as int, to as int));
        out
    } else {
        let middle: usize = from + (to - from) / 2;
        let left = sorted_part(keys, from, middle);
        let right = sorted_part(keys, middle, to);
        let out = merged(&left, &right);
        proof {
            let l = keys@.subrange(from as int, middle as int);
            let r = keys@.subrange(middle as int, to as int);
            assert(l + r =~= keys@.subrange(from as int, to as int));
            assert forall|k: ShadowPointKey| #[trigger]
                occurrences(out@, k) == occurrences(l + r, k) by {
                lemma_occurrences_add(l, r, k);
                lemma_occurrences_add(left@, right@, k);
                assert(occurrences(left@, k) == occurrences(l, k));
                assert(occurrences(right@, k) == occurrences(r, k));
                assert(occurrences(out@, k) == occurrences(left@ + right@, k));
            }
        }
        out
    }
}

/// The same identities in ascending order.
pub fn sort_keys(keys: &Vec<ShadowPointKey>) -> (out: Vec<ShadowPointKey>)
    ensures
        in_order(out@),
        same_contents(out@, keys@),
        out@.len() == keys@.len(),
{
    assert(keys@.subrange(0, keys@.len() as int) =~= keys@);
    let n: usize = keys.len();
    sorted_part(keys, 0, n)
}

/// One identity with the number of times that it was expected and that it is there.
#[derive(Clone, Copy, Debug, PartialEq, Eq, Structural)]
pub struct PointCounts {
    pub point: ShadowPointKey,
    pub expected: usize,
    pub actual: usize,
}

/// Whether `groups` give, in ascending order, each identity of two sequences with
/// the number of times that it occurs in each.
pub open spec fn counted(
    groups: Seq<PointCounts>,
    expected: Seq<ShadowPointKey>,
    actual: Seq<ShadowPointKey>,
) -> bool {
    &&& forall|i: int, j: int|
        #![trigger groups[i], groups[j]]
        0 <= i < j < groups.len() ==> before(groups[i].point, groups[j].point)
    &&& forall|i: int|
        #![trigger groups[i]]
        0 <= i < groups.len() ==> groups[i].expected == occurrences(expected, groups[i].point)
            && groups[i].actual == occurrences(actual, groups[i].point) && (groups[i].expected > 0
            || groups[i].actual > 0)
    &&& forall|k: ShadowPointKey|
        #![trigger occurrences(expected, k)]
        #![trigger occurrences(actual, k)]
        occurrences(expected, k) > 0 || occurrences(actual, k) > 0 ==> names(groups, k)
}

/// Whether a group stands for an identity.
pub open spec fn names(groups: Seq<PointCounts>, k: ShadowPointKey) -> bool {
    exists|i: int| 0 <= i < groups.len() && (#[trigger] groups[i]).point == k
}

/// How many identities equal to `k` stand at and behind `from`.
fn run_length(keys: &Vec<ShadowPointKey>, from: usize, k: &ShadowPointKey) -> (n: usize)
    requires
        in_order(keys@),
        from <= keys@.len(),
        forall|i: int| 0 <= i < from ==> before(#[trigger] keys@[i], *k),
        forall|i: int| from <= i < keys@.len() ==> !before(#[trigger] keys@[i], *k),
    ensures
        n == occurrences(keys@, *k),
        from + n <= keys@.len(),
        forall|i: int| from <= i < from + n ==> #[trigger] keys@[i] == *k,
        forall|i: int| from + n <= i < keys@.len() ==> before(*k, #[trigger] keys@[i]),
{
    let mut to: usize = from;
    while to < keys.len() && !is_before(k, &keys[to])
        invariant
            from <= to <= keys@.len(),
            forall|i: int| from <= i < keys@.len() ==> !before(#[trigger] keys@[i], *k),
            forall|i: int| from <= i < to ==> #[trigger] keys@[i] == *k,
        decreases keys@.len() - to,
    {
        assert(keys@[to as int] == *k);
        to = to + 1;
    }
    proof {
        assert forall|i: int| to <= i < keys@.len() implies before(*k, #[trigger] keys@[i]) by {
            if i > to {
                assert(!before(keys@[i], keys@[to as int]));
            }
        }
        let a = keys@.take(from as int);
        let b = keys@.subrange(from as int, to as int);
        let c = keys@.skip(to as int);
        assert(keys@ =~= a + b + c);
        lemma_occurrences_add(a + b, c, *k);
        lemma_occurrences_add(a, b, *k);
        lemma_no_occurrence(a, *k);
        lemma_only_occurrences(b, *k);
        lemma_no_occurrence(c, *k);
    }
    to - from
}

/// Counts each identity of two sequences.
#[verifier::loop_isolation(false)]
#[verifier::rlimit(40)]
pub fn count_points(expected: &Vec<ShadowPointKey>, actual: &Vec<ShadowPointKey>) -> (groups: Vec<
    PointCounts,
>)
    ensures
        counted(groups@, expected@, actual@),
{
    let a = sort_keys(expected);
    let b = sort_keys(actual);
    let mut groups: Vec<PointCounts> = Vec::new();
    let mut i: usize = 0;
    let mut j: usize = 0;
    while i < a.len() || j < b.len()
        invariant
            i <= a@.len(),
            j <= b@.len(),
            forall|x: int, y: int|
                #![trigger groups@[x], groups@[y]]
                0 <= x < y < groups@.len() ==> before(groups@[x].point, groups@[y].point),
            forall|x: int|
                #![trigger groups@[x]]
                0 <= x < groups@.len() ==> groups@[x].expected == occurrences(
                    expected@,
                    groups@[x].point,
                ) && groups@[x].actual == occurrences(actual@, groups@[x].point) && (
                groups@[x].expected > 0 || groups@[x].actual > 0),
            forall|m: int| 0 <= m < i ==> names(groups@, #[trigger] a@[m]),
            forall|m: int| 0 <= m < j ==> names(groups@, #[trigger] b@[m]),
            forall|x: int, m: int|
                #![trigger groups@[x], a@[m]]
                0 <= x < groups@.len() && i <= m < a@.len() ==> before(groups@[x].point, a@[m]),
            forall|x: int, m: int|
                #![trigger groups@[x], b@[m]]
                0 <= x < groups@.len() && j <= m < b@.len() ==> before(groups@[x].point, b@[m]),
            forall|x: int, m: int|
                #![trigger a@[x], a@[m]]
                0 <= x < i <= m < a@.len() ==> before(a@[x], a@[m]),
            forall|x: int, m: int|
                #![trigger a@[x], b@[m]]
                0 <= x < i && j <= m < b@.len() ==> before(a@[x], b@[m]),
            forall|x: int, m: int|
                #![trigger b@[x], a@[m]]
                0 <= x < j && i <= m < a@.len() ==> before(b@[x], a@[m]),
            forall|x: int, m: int|
                #![trigger b@[x], b@[m]]
                0 <= x < j <= m < b@.len() ==> before(b@[x], b@[m]),
        decreases a@.len() - i + b@.len() - j,
    {
        let k: ShadowPointKey = if i >= a.len() {
            b[j]
        } else if j >= b.len() || !is_before(&b[j], &a[i]) {
            a[i]
        } else {
            b[j]
        };
        proof {
            assert forall|m: int| i <= m < a@.len() implies !before(#[trigger] a@[m], k) by {
                if i < m {
                    assert(!before(a@[m], a@[i as int]));
                }
            }
            assert forall|m: int| j <= m < b@.len() implies !before(#[trigger] b@[m], k) by {
                if j < m {
                    assert(!before(b@[m], b@[j as int]));
                }
            }
        }
        let e: usize = run_length(&a, i, &k);
        let n: usize = run_length(&b, j, &k);
        assert(occurrences(a@, k) == occurrences(expected@, k));
        assert(occurrences(b@, k) == occurrences(actual@, k));
        proof {
            if i < a@.len() && a@[i as int] == k {
                lemma_occurs(a@, i as int);
            }
            if j < b@.len() && b@[j as int] == k {
                lemma_occurs(b@, j as int);
            }
        }
        let ghost sofar = groups@;
        groups.push(PointCounts { point: k, expected: e, actual: n });
        proof {
            assert(names(groups@, k)) by {
                assert(groups@[groups@.len() - 1].point == k);
            }
            assert forall|m: int| 0 <= m < i + e implies names(groups@, #[trigger] a@[m]) by {
                if m < i {
                    assert(names(sofar, a@[m]));
                    let x = choose|x: int| 0 <= x < sofar.len() && (#[trigger] sofar[x]).point
                        == a@[m];
                    assert(groups@[x] == sofar[x]);
                }
            }
            assert forall|m: int| 0 <= m < j + n implies names(groups@, #[trigger] b@[m]) by {
                if m < j {
                    assert(names(sofar, b@[m]));
                    let x = choose|x: int| 0 <= x < sofar.len() && (#[trigger] sofar[x]).point
                        == b@[m];
                    assert(groups@[x] == sofar[x]);
                }
            }
        }
        i = i + e;
        j = j + n;
    }
    proof {
        assert forall|k: ShadowPointKey| occurrences(expected@, k) > 0 || occurrences(actual@, k)
            > 0 implies names(groups@, k) by {
            if occurrences(expected@, k) > 0 {
                assert(occurrences(a@, k) > 0);
                if !a@.contains(k) {
                    lemma_no_occurrence(a@, k);
                }
                assert(names(groups@, a@[a@.index_of(k)]));
            } else {
                assert(occurrences(b@, k) > 0);
                if !b@.contains(k) {
                    lemma_no_occurrence(b@, k);
                }
                assert(names(groups@, b@[b@.index_of(k)]));
            }
        }
    }
    groups
}

/// Two sequences have only one list of counts.
pub proof fn counts_are_unique(
    a: Seq<PointCounts>,
    b: Seq<PointCounts>,
    expected: Seq<ShadowPointKey>,
    actual: Seq<ShadowPointKey>,
    n: int,
)
    requires
        counted(a, expected, actual),
        counted(b, expected, actual),
        0 <= n <= a.len(),
    ensures
        n <= b.len(),
        a.take(n) == b.take(n),
    decreases n,
{
    if n > 0 {
        counts_are_unique(a, b, expected, actual, n - 1);
        let last = a[n - 1];
        assert(names(b, last.point)) by {
            assert(occurrences(expected, last.point) > 0 || occurrences(actual, last.point) > 0);
        }
        let at = choose|i: int| 0 <= i < b.len() && (#[trigger] b[i]).point == last.point;
        if at < n - 1 {
            assert(b.take(n - 1)[at] == a.take(n - 1)[at]);
            assert(a[at] == b[at]);
            assert(before(a[at].point, a[n - 1].point));
        }
        assert(at >= n - 1);
        if at > n - 1 {
            let other = b[n - 1];
            assert(before(other.point, last.point));
            assert(names(a, other.point)) by {
                assert(occurrences(expected, other.point) > 0 || occurrences(actual, other.point)
                    > 0);
            }
            let x = choose|i: int| 0 <= i < a.len() && (#[trigger] a[i]).point == other.point;
            if x > n - 1 {
                assert(before(a[n - 1].point, a[x].point));
            } else if x < n - 1 {
                assert(b.take(n - 1)[x] == a.take(n - 1)[x]);
                assert(before(b[x].point, b[n - 1].point));
            }
        }
        assert(at == n - 1);
        assert(a.take(n) =~= a.take(n - 1).push(a[n - 1]));
        assert(b.take(n) =~= b.take(n - 1).push(b[n - 1]));
        assert(a[n - 1] == b[n - 1]);
    }
}

} // verus!
