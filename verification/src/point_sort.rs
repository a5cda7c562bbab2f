//! Points in storage order: by series, valid time, knowledge time and change
//! time, and where all of these are equal in the order they came in.
use crate::model::Point;
use vstd::prelude::*;

verus! {

/// Whether `a` is stored before `b` whatever the order they came in.
pub open spec fn key_less(a: Point, b: Point) -> bool {
    a.series_id < b.series_id || (a.series_id == b.series_id && (a.valid_time < b.valid_time || (
    a.valid_time == b.valid_time && (a.knowledge_time < b.knowledge_time || (a.knowledge_time
        == b.knowledge_time && a.change_time < b.change_time)))))
}

/// Whether two points are stored in the order they came in.
pub open spec fn same_key(a: Point, b: Point) -> bool {
    !key_less(a, b) && !key_less(b, a)
}

/// Whether points are in storage order.
pub open spec fn key_sorted(p: Seq<Point>) -> bool {
    forall|i: int, j: int|
        #![trigger p[i], p[j]]
        0 <= i < j < p.len() ==> !key_less(p[j], p[i])
}

/// The points with the key of `x`, in order.
pub open spec fn with_key(p: Seq<Point>, x: Point) -> Seq<Point>
    decreases p.len(),
{
    if p.len() == 0 {
        Seq::empty()
    } else if same_key(p.last(), x) {
        with_key(p.drop_last(), x).push(p.last())
    } else {
        with_key(p.drop_last(), x)
    }
}

/// Whether `out` holds the points of `p` in storage order: sorted, and for each
/// key the same points in the same order.
pub open spec fn stored_order(out: Seq<Point>, p: Seq<Point>) -> bool {
    &&& key_sorted(out)
    &&& forall|x: Point| #[trigger] with_key(out, x) == with_key(p, x)
    &&& out.len() == p.len()
}

pub proof fn lemma_with_key_push(p: Seq<Point>, y: Point, x: Point)
    ensures
        with_key(p.push(y), x) == if same_key(y, x) {
            with_key(p, x).push(y)
        } else {
            with_key(p, x)
        },
{
    assert(p.push(y).drop_last() =~= p);
}

pub proof fn lemma_with_key_concat(a: Seq<Point>, b: Seq<Point>, x: Point)
    ensures
        with_key(a + b, x) == with_key(a, x) + with_key(b, x),
    decreases b.len(),
{
    if b.len() > 0 {
        lemma_with_key_concat(a, b.drop_last(), x);
        assert((a + b).drop_last() =~= a + b.drop_last());
        assert((a + b).last() == b.last());
        assert(with_key(a + b, x) =~= with_key(a, x) + with_key(b, x));
    } else {
        assert(a + b =~= a);
        assert(with_key(a, x) + with_key(b, x) =~= with_key(a, x));
    }
}

proof fn lemma_with_key_none(p: Seq<Point>, x: Point)
    requires
        forall|i: int| 0 <= i < p.len() ==> !same_key(#[trigger] p[i], x),
    ensures
        with_key(p, x) == Seq::<Point>::empty(),
    decreases p.len(),
{
    if p.len() > 0 {
        let front = p.drop_last();
        assert forall|i: int| 0 <= i < front.len() implies !same_key(#[trigger] front[i], x) by {
            assert(front[i] == p[i]);
        }
        lemma_with_key_none(front, x);
    }
}

/// A point occurs in `p` as often as among the points with its key.
pub proof fn lemma_with_key_contains(p: Seq<Point>, x: Point, y: Point)
    ensures
        with_key(p, x).contains(y) <==> (p.contains(y) && same_key(y, x)),
    decreases p.len(),
{
    if p.len() > 0 {
        lemma_with_key_contains(p.drop_last(), x, y);
        let front = p.drop_last();
        assert(p =~= front.push(p.last()));
        assert(p.contains(y) <==> front.contains(y) || p.last() == y) by {
            if front.contains(y) {
                let i = choose|i: int| 0 <= i < front.len() && front[i] == y;
                assert(p[i] == y);
            }
            if p.contains(y) {
                let i = choose|i: int| 0 <= i < p.len() && p[i] == y;
                if i < front.len() {
                    assert(front[i] == y);
                }
            }
            if p.last() == y {
                assert(p[p.len() - 1] == y);
            }
        }
        let w = with_key(front, x);
        assert(w.push(p.last()).contains(y) <==> w.contains(y) || p.last() == y) by {
            let v = w.push(p.last());
            if w.contains(y) {
                let i = choose|i: int| 0 <= i < w.len() && w[i] == y;
                assert(v[i] == y);
            }
            if v.contains(y) {
                let i = choose|i: int| 0 <= i < v.len() && v[i] == y;
                if i < w.len() {
                    assert(w[i] == y);
                }
            }
            if p.last() == y {
                assert(v[w.len() as int] == y);
            }
        }
    }
}

fn is_key_less(a: &Point, b: &Point) -> (yes: bool)
    ensures
        yes == key_less(*a, *b),
{
    a.series_id < b.series_id || (a.series_id == b.series_id && (a.valid_time < b.valid_time || (
    a.valid_time == b.valid_time && (a.knowledge_time < b.knowledge_time || (a.knowledge_time
        == b.knowledge_time && a.change_time < b.change_time)))))
}

#[verifier::loop_isolation(false)]
fn merge(a: &Vec<Point>, b: &Vec<Point>) -> (out: Vec<Point>)
    requires
        key_sorted(a@),
        key_sorted(b@),
    ensures
        stored_order(out@, a@ + b@),
{
    let mut out: Vec<Point> = Vec::new();
    let mut i: usize = 0;
    let mut j: usize = 0;
    let alen: usize = a.len();
    let blen: usize = b.len();
    while i < alen || j < blen
        invariant
            i <= alen == a@.len(),
            j <= blen == b@.len(),
            out@.len() == i + j,
            key_sorted(out@),
            forall|k: int, m: int|
                #![trigger out@[k], a@[m]]
                0 <= k < out@.len() && i <= m < a@.len() ==> !key_less(a@[m], out@[k]),
            forall|k: int, m: int|
                #![trigger out@[k], b@[m]]
                0 <= k < out@.len() && j <= m < b@.len() ==> !key_less(b@[m], out@[k]),
            forall|k: int, m: int|
                #![trigger b@[k], a@[m]]
                0 <= k < j && i <= m < a@.len() ==> key_less(b@[k], a@[m]),
            forall|x: Point| #[trigger]
                with_key(out@, x) == with_key(a@.take(i as int), x) + with_key(
                    b@.take(j as int),
                    x,
                ),
        decreases alen - i + blen - j,
    {
        let ghost before = out@;
        let from_a = i < alen && (j >= blen || !is_key_less(&b[j], &a[i]));
        if from_a {
            let y = a[i];
            out.push(y);
            proof {
                assert(a@.take(i + 1) =~= a@.take(i as int).push(y));
                assert forall|x: Point| #[trigger] with_key(out@, x) == with_key(
                    a@.take(i + 1),
                    x,
                ) + with_key(b@.take(j as int), x) by {
                    lemma_with_key_push(before, y, x);
                    lemma_with_key_push(a@.take(i as int), y, x);
                    assert(with_key(before, x) == with_key(a@.take(i as int), x) + with_key(
                        b@.take(j as int),
                        x,
                    ));
                    if same_key(y, x) {
                        let taken = b@.take(j as int);
                        assert forall|k: int| 0 <= k < taken.len() implies !same_key(
                            #[trigger] taken[k],
                            x,
                        ) by {
                            assert(key_less(b@[k], a@[i as int]));
                        }
                        lemma_with_key_none(taken, x);
                        assert(with_key(out@, x) =~= with_key(a@.take(i + 1), x) + with_key(
                            taken,
                            x,
                        ));
                    }
                }
                assert forall|k: int, m: int|
                    #![trigger out@[k], b@[m]]
                    0 <= k < out@.len() && j <= m < b@.len() implies !key_less(
                    b@[m],
                    out@[k],
                ) by {
                    if k == before.len() {
                        let first = b@[j as int];
                        let other = b@[m];
                    } else {
                        assert(out@[k] == before[k]);
                    }
                }
            }
            i = i + 1;
        } else {
            let y = b[j];
            out.push(y);
            proof {
                assert(b@.take(j + 1) =~= b@.take(j as int).push(y));
                assert forall|x: Point| #[trigger] with_key(out@, x) == with_key(
                    a@.take(i as int),
                    x,
                ) + with_key(b@.take(j + 1), x) by {
                    lemma_with_key_push(before, y, x);
                    lemma_with_key_push(b@.take(j as int), y, x);
                    assert(with_key(before, x) == with_key(a@.take(i as int), x) + with_key(
                        b@.take(j as int),
                        x,
                    ));
                    assert(with_key(out@, x) =~= with_key(a@.take(i as int), x) + with_key(
                        b@.take(j + 1),
                        x,
                    ));
                }
                assert forall|k: int, m: int|
                    #![trigger b@[k], a@[m]]
                    0 <= k < j + 1 && i <= m < a@.len() implies key_less(b@[k], a@[m]) by {
                    let first = a@[i as int];
                    let other = a@[m];
                }
                assert forall|k: int, m: int|
                    #![trigger out@[k], a@[m]]
                    0 <= k < out@.len() && i <= m < a@.len() implies !key_less(
                    a@[m],
                    out@[k],
                ) by {
                    if k == before.len() {
                        assert(key_less(b@[j as int], a@[m]));
                    } else {
                        assert(out@[k] == before[k]);
                    }
                }
            }
            j = j + 1;
        }
        assert forall|k: int, m: int|
            #![trigger out@[k], out@[m]]
            0 <= k < m < out@.len() implies !key_less(out@[m], out@[k]) by {
            if m == before.len() {
                assert(out@[k] == before[k]);
                if from_a {
                    assert(out@[m] == a@[i - 1]);
                } else {
                    assert(out@[m] == b@[j - 1]);
                }
            } else {
                assert(out@[k] == before[k] && out@[m] == before[m]);
            }
        }
    }
    assert forall|x: Point| #[trigger] with_key(out@, x) == with_key(a@ + b@, x) by {
        assert(a@.take(alen as int) =~= a@);
        assert(b@.take(blen as int) =~= b@);
        lemma_with_key_concat(a@, b@, x);
    }
    out
}

/// The points in storage order.
pub fn sort_points(points: &[Point]) -> (out: Vec<Point>)
    ensures
        stored_order(out@, points@),
    decreases points@.len(),
{
    let n: usize = points.len();
    if n <= 1 {
        let mut out: Vec<Point> = Vec::new();
        if n == 1 {
            out.push(points[0]);
        }
        assert(out@ =~= points@);
        return out;
    }
    let half: usize = n / 2;
    let left = sort_points(&points[0..half]);
    let right = sort_points(&points[half..n]);
    let out = merge(&left, &right);
    proof {
        let a = points@.subrange(0, half as int);
        let b = points@.subrange(half as int, n as int);
        assert(a + b =~= points@);
        assert forall|x: Point| #[trigger] with_key(out@, x) == with_key(points@, x) by {
            lemma_with_key_concat(left@, right@, x);
            lemma_with_key_concat(a, b, x);
            assert(with_key(left@, x) == with_key(a, x));
            assert(with_key(right@, x) == with_key(b, x));
        }
    }
    out
}

/// There is one storage order of points.
pub proof fn storage_order_is_unique(a: Seq<Point>, b: Seq<Point>)
    requires
        key_sorted(a),
        key_sorted(b),
        forall|x: Point| #[trigger] with_key(a, x) == with_key(b, x),
    ensures
        a == b,
    decreases a.len(),
{
    if a.len() == 0 {
        if b.len() > 0 {
            let z = b.last();
            lemma_with_key_contains(b, z, z);
            assert(b.contains(z)) by {
                assert(b[b.len() - 1] == z);
            }
            assert(with_key(a, z) == with_key(b, z));
        }
        assert(a =~= b);
    } else {
        let y = a.last();
        assert(a[a.len() - 1] == y);
        lemma_with_key_contains(a, y, y);
        assert(with_key(a, y) == with_key(b, y));
        lemma_with_key_contains(b, y, y);
        assert(b.contains(y));
        let z = b.last();
        assert(b[b.len() - 1] == z);
        lemma_with_key_contains(b, z, z);
        assert(with_key(a, z) == with_key(b, z));
        lemma_with_key_contains(a, z, z);
        assert(a.contains(z));
        let i = choose|i: int| 0 <= i < b.len() && b[i] == y;
        let j = choose|j: int| 0 <= j < a.len() && a[j] == z;
        assert(same_key(y, z));
        assert(with_key(a, y).last() == y);
        assert(with_key(b, y).last() == z);
        let front = a.drop_last();
        let before = b.drop_last();
        assert(key_sorted(front)) by {
            assert forall|k: int, m: int|
                #![trigger front[k], front[m]]
                0 <= k < m < front.len() implies !key_less(front[m], front[k]) by {
                let u = a[k];
                let v = a[m];
            }
        }
        assert(key_sorted(before)) by {
            assert forall|k: int, m: int|
                #![trigger before[k], before[m]]
                0 <= k < m < before.len() implies !key_less(before[m], before[k]) by {
                let u = b[k];
                let v = b[m];
            }
        }
        assert forall|x: Point| #[trigger] with_key(front, x) == with_key(before, x) by {
            assert(with_key(a, x) == with_key(b, x));
            if same_key(y, x) {
                assert(with_key(a, x).drop_last() =~= with_key(front, x));
                assert(with_key(b, x).drop_last() =~= with_key(before, x));
            }
        }
        storage_order_is_unique(front, before);
        assert(a =~= front.push(y));
        assert(b =~= before.push(z));
    }
}

} // verus!
