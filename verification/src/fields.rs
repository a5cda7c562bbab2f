//! Headers: unsigned fields of fixed width, least significant byte first.
use crate::bytes::put_le;
#[allow(unused_imports)]
use crate::bytes::{
    from_le, le, lemma_le_len, lemma_le_round_trip, lemma_pow256_monotonic, lemma_pow256_values,
    pow256,
};
use vstd::prelude::*;

verus! {

/// The bytes of the first `n` fields, each given as its value and its width.
pub open spec fn packed_to(fields: Seq<(u128, usize)>, n: nat) -> Seq<u8>
    decreases n,
{
    if n == 0 {
        Seq::empty()
    } else {
        packed_to(fields, (n - 1) as nat) + le(fields[n - 1].0 as nat, fields[n - 1].1 as nat)
    }
}

/// The bytes of all fields.
pub open spec fn packed(fields: Seq<(u128, usize)>) -> Seq<u8> {
    packed_to(fields, fields.len())
}

/// Where field `n` starts.
pub open spec fn offset_of(fields: Seq<(u128, usize)>, n: nat) -> nat
    decreases n,
{
    if n == 0 {
        0
    } else {
        offset_of(fields, (n - 1) as nat) + fields[n - 1].1 as nat
    }
}

/// The number in the `width` bytes of `b` at `at`.
pub open spec fn field(b: Seq<u8>, at: int, width: int) -> nat {
    from_le(b.subrange(at, at + width))
}

/// Whether each field fits its width.
pub open spec fn fields_fit(fields: Seq<(u128, usize)>) -> bool {
    forall|i: int|
        0 <= i < fields.len() ==> (#[trigger] fields[i]).0 < pow256(fields[i].1 as nat)
}

pub proof fn lemma_packed_len(fields: Seq<(u128, usize)>, n: nat)
    requires
        n <= fields.len(),
    ensures
        packed_to(fields, n).len() == offset_of(fields, n),
    decreases n,
{
    if n > 0 {
        lemma_packed_len(fields, (n - 1) as nat);
        lemma_le_len(fields[n - 1].0 as nat, fields[n - 1].1 as nat);
    }
}

/// A field is read back where it stands.
pub proof fn lemma_field(fields: Seq<(u128, usize)>, n: nat, i: int)
    requires
        n <= fields.len(),
        0 <= i < n,
        fields_fit(fields),
    ensures
        offset_of(fields, (i + 1) as nat) <= packed_to(fields, n).len(),
        field(packed_to(fields, n), offset_of(fields, i as nat) as int, fields[i].1 as int)
            == fields[i].0,
    decreases n,
{
    lemma_packed_len(fields, n);
    lemma_packed_len(fields, (n - 1) as nat);
    let v = fields[i].0 as nat;
    let w = fields[i].1 as nat;
    let at = offset_of(fields, i as nat) as int;
    let all = packed_to(fields, n);
    let front = packed_to(fields, (n - 1) as nat);
    if i == n - 1 {
        lemma_le_round_trip(v, w);
        assert(all.subrange(at, at + w) =~= le(v, w));
    } else {
        lemma_field(fields, (n - 1) as nat, i);
        assert(all.subrange(at, at + w) =~= front.subrange(at, at + w));
    }
}

/// Every field is read back, also where more bytes follow.
pub proof fn lemma_fields(fields: Seq<(u128, usize)>, b: Seq<u8>, at: int)
    requires
        fields_fit(fields),
        0 <= at,
        at + packed(fields).len() <= b.len(),
        b.subrange(at, at + packed(fields).len()) == packed(fields),
    ensures
        packed(fields).len() == offset_of(fields, fields.len()),
        forall|i: int|
            #![trigger fields[i]]
            0 <= i < fields.len() ==> field(
                b,
                at + offset_of(fields, i as nat),
                fields[i].1 as int,
            ) == fields[i].0,
{
    lemma_packed_len(fields, fields.len());
    let all = packed(fields);
    assert forall|i: int| #![trigger fields[i]] 0 <= i < fields.len() implies field(
        b,
        at + offset_of(fields, i as nat),
        fields[i].1 as int,
    ) == fields[i].0 by {
        lemma_field(fields, fields.len(), i);
        let o = offset_of(fields, i as nat);
        let w = fields[i].1 as int;
        let whole = b.subrange(at, at + all.len());
        assert(whole.subrange(o as int, o + w) =~= b.subrange(at + o, at + o + w));
    }
}

/// Appends the bytes of all fields.
pub fn put_fields(out: &mut Vec<u8>, fields: &[(u128, usize)])
    ensures
        final(out)@ == old(out)@ + packed(fields@),
{
    let mut n: usize = 0;
    assert(out@ =~= old(out)@ + packed_to(fields@, 0));
    while n < fields.len()
        invariant
            n <= fields@.len(),
            out@ == old(out)@ + packed_to(fields@, n as nat),
        decreases fields@.len() - n,
    {
        put_le(out, fields[n].0, fields[n].1);
        n = n + 1;
        assert(out@ =~= old(out)@ + packed_to(fields@, n as nat));
    }
}

} // verus!
