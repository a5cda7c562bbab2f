//! Counts and sums that statements about results are written with.
use vstd::prelude::*;

verus! {

/// How many of the first `n` places have a property.
pub open spec fn how_many(n: nat, p: spec_fn(int) -> bool) -> nat
    decreases n,
{
    if n == 0 {
        0
    } else {
        how_many((n - 1) as nat, p) + if p(n - 1) {
            1nat
        } else {
            0nat
        }
    }
}

pub proof fn lemma_how_many(n: nat, p: spec_fn(int) -> bool)
    ensures
        how_many(n, p) <= n,
        how_many(n, p) == 0 <==> forall|i: int| 0 <= i < n ==> !(#[trigger] p(i)),
    decreases n,
{
    if n > 0 {
        lemma_how_many((n - 1) as nat, p);
        if how_many(n, p) == 0 {
            assert forall|i: int| 0 <= i < n implies !(#[trigger] p(i)) by {}
        }
    }
}

/// The sum of some numbers.
pub open spec fn sum_of(numbers: Seq<int>) -> int
    decreases numbers.len(),
{
    if numbers.len() == 0 {
        0
    } else {
        sum_of(numbers.drop_last()) + numbers.last()
    }
}

} // verus!
