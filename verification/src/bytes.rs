//! Fixed-width integers as byte sequences, in both byte orders.
use vstd::prelude::*;

verus! {

/// 256 to the power `n`: the number of values that `n` bytes can hold.
pub open spec fn pow256(n: nat) -> nat
    decreases n,
{
    if n == 0 {
        1
    } else {
        256 * pow256((n - 1) as nat)
    }
}

/// The low `width` bytes of `value`, most significant byte first.
pub open spec fn be(value: nat, width: nat) -> Seq<u8>
    decreases width,
{
    if width == 0 {
        Seq::empty()
    } else {
        be(value / 256, (width - 1) as nat).push((value % 256) as u8)
    }
}

/// The number that a most-significant-first byte sequence stands for.
pub open spec fn from_be(bytes: Seq<u8>) -> nat
    decreases bytes.len(),
{
    if bytes.len() == 0 {
        0
    } else {
        from_be(bytes.drop_last()) * 256 + bytes.last() as nat
    }
}

/// The low `width` bytes of `value`, least significant byte first.
pub open spec fn le(value: nat, width: nat) -> Seq<u8>
    decreases width,
{
    if width == 0 {
        Seq::empty()
    } else {
        seq![(value % 256) as u8] + le(value / 256, (width - 1) as nat)
    }
}

/// The number that a least-significant-first byte sequence stands for.
pub open spec fn from_le(bytes: Seq<u8>) -> nat
    decreases bytes.len(),
{
    if bytes.len() == 0 {
        0
    } else {
        bytes[0] as nat + 256 * from_le(bytes.subrange(1, bytes.len() as int))
    }
}

/// The unsigned number with the same 64 bits as `value` in two's complement.
pub open spec fn bits_of_i64(value: i64) -> nat {
    if value < 0 {
        (value + 0x1_0000_0000_0000_0000) as nat
    } else {
        value as nat
    }
}

/// The signed number whose two's complement bits are `bits`.
pub open spec fn i64_of_bits(bits: nat) -> i64 {
    if bits >= 0x8000_0000_0000_0000 {
        (bits - 0x1_0000_0000_0000_0000) as i64
    } else {
        bits as i64
    }
}

pub proof fn lemma_pow256_values()
    ensures
        pow256(1) == 0x100,
        pow256(2) == 0x1_0000,
        pow256(4) == 0x1_0000_0000,
        pow256(8) == 0x1_0000_0000_0000_0000,
        pow256(16) == 0x1_0000_0000_0000_0000_0000_0000_0000_0000,
{
    reveal_with_fuel(pow256, 17);
}

pub proof fn lemma_pow256_monotonic(m: nat, n: nat)
    requires
        m <= n,
    ensures
        0 < pow256(m) <= pow256(n),
    decreases n,
{
    if m < n {
        lemma_pow256_monotonic(m, (n - 1) as nat);
    } else if n > 0 {
        lemma_pow256_monotonic((m - 1) as nat, (n - 1) as nat);
    }
}

pub proof fn lemma_be_len(value: nat, width: nat)
    ensures
        be(value, width).len() == width,
    decreases width,
{
    if width > 0 {
        lemma_be_len(value / 256, (width - 1) as nat);
    }
}

/// Writing a number that fits and reading it back gives the number.
pub proof fn lemma_be_round_trip(value: nat, width: nat)
    requires
        value < pow256(width),
    ensures
        be(value, width).len() == width,
        from_be(be(value, width)) == value,
    decreases width,
{
    if width > 0 {
        lemma_be_round_trip(value / 256, (width - 1) as nat);
        let all = be(value, width);
        assert(all.drop_last() =~= be(value / 256, (width - 1) as nat));
    }
}

/// Reading bytes as a number and writing that number gives the bytes.
pub proof fn lemma_from_be_round_trip(bytes: Seq<u8>)
    ensures
        from_be(bytes) < pow256(bytes.len()),
        be(from_be(bytes), bytes.len()) == bytes,
    decreases bytes.len(),
{
    if bytes.len() > 0 {
        lemma_from_be_round_trip(bytes.drop_last());
        assert(be(from_be(bytes), bytes.len()) =~= bytes);
    }
}

pub proof fn lemma_le_len(value: nat, width: nat)
    ensures
        le(value, width).len() == width,
    decreases width,
{
    if width > 0 {
        lemma_le_len(value / 256, (width - 1) as nat);
    }
}

/// Writing a number that fits and reading it back gives the number.
pub proof fn lemma_le_round_trip(value: nat, width: nat)
    requires
        value < pow256(width),
    ensures
        le(value, width).len() == width,
        from_le(le(value, width)) == value,
    decreases width,
{
    if width > 0 {
        lemma_le_round_trip(value / 256, (width - 1) as nat);
        let all = le(value, width);
        assert(all.subrange(1, all.len() as int) =~= le(value / 256, (width - 1) as nat));
    }
}

/// Reading bytes as a number and writing that number gives the bytes.
pub proof fn lemma_from_le_round_trip(bytes: Seq<u8>)
    ensures
        from_le(bytes) < pow256(bytes.len()),
        le(from_le(bytes), bytes.len()) == bytes,
    decreases bytes.len(),
{
    if bytes.len() > 0 {
        lemma_from_le_round_trip(bytes.subrange(1, bytes.len() as int));
        assert(le(from_le(bytes), bytes.len()) =~= bytes);
    }
}

/// The two's complement bits of a signed number give the number back.
pub proof fn lemma_i64_bits(value: i64)
    ensures
        bits_of_i64(value) < pow256(8),
        i64_of_bits(bits_of_i64(value)) == value,
        value as u64 == bits_of_i64(value),
{
    lemma_pow256_values();
    assert(value < 0 ==> value as u64 == value + 0x1_0000_0000_0000_0000) by (bit_vector);
    assert(value >= 0 ==> value as u64 == value) by (bit_vector);
}

/// The bits of the signed number that 64 bits stand for are those bits.
pub proof fn lemma_i64_from_bits(bits: u64)
    ensures
        bits_of_i64(i64_of_bits(bits as nat)) == bits,
        bits as i64 == i64_of_bits(bits as nat),
{
    assert(bits >= 0x8000_0000_0000_0000u64 ==> bits as i64 == bits - 0x1_0000_0000_0000_0000)
        by (bit_vector);
    assert(bits < 0x8000_0000_0000_0000u64 ==> bits as i64 == bits) by (bit_vector);
}

/// Appends the low `width` bytes of `value`, most significant byte first.
pub fn put_be(out: &mut Vec<u8>, value: u128, width: usize)
    ensures
        final(out)@ == old(out)@ + be(value as nat, width as nat),
    decreases width,
{
    if width > 0 {
        put_be(out, value / 256, width - 1);
        out.push((value % 256) as u8);
        assert(out@ =~= old(out)@ + be(value as nat, width as nat));
    } else {
        assert(out@ =~= old(out)@ + be(value as nat, width as nat));
    }
}

/// Appends the low `width` bytes of `value`, least significant byte first.
pub fn put_le(out: &mut Vec<u8>, value: u128, width: usize)
    ensures
        final(out)@ == old(out)@ + le(value as nat, width as nat),
    decreases width,
{
    if width > 0 {
        out.push((value % 256) as u8);
        put_le(out, value / 256, width - 1);
    }
    assert(out@ =~= old(out)@ + le(value as nat, width as nat));
}

/// The number in the `width` bytes at `at`, most significant byte first.
pub fn read_be(data: &[u8], at: usize, width: usize) -> (value: u128)
    requires
        width <= 16,
        at + width <= data@.len(),
    ensures
        value == from_be(data@.subrange(at as int, at + width)),
        value < pow256(width as nat),
{
    let total: usize = data.len();
    let mut value: u128 = 0;
    let mut i: usize = 0;
    while i < width
        invariant
            i <= width <= 16,
            at + width <= data@.len() == total,
            value == from_be(data@.subrange(at as int, at + i)),
            value < pow256(i as nat),
        decreases width - i,
    {
        proof {
            lemma_pow256_values();
            lemma_pow256_monotonic((i + 1) as nat, 16);
            let longer = data@.subrange(at as int, at + i + 1);
            assert(longer.drop_last() =~= data@.subrange(at as int, at + i));
            lemma_from_be_round_trip(longer);
        }
        value = value * 256 + data[at + i] as u128;
        i = i + 1;
    }
    value
}

/// The number in the `width` bytes at `at`, least significant byte first.
pub fn read_le(data: &[u8], at: usize, width: usize) -> (value: u128)
    requires
        width <= 16,
        at + width <= data@.len(),
    ensures
        value == from_le(data@.subrange(at as int, at + width)),
        value < pow256(width as nat),
{
    let total: usize = data.len();
    let mut value: u128 = 0;
    let mut i: usize = 0;
    while i < width
        invariant
            i <= width <= 16,
            at + width <= data@.len() == total,
            value == from_le(data@.subrange(at + width - i, at + width)),
            value < pow256(i as nat),
        decreases width - i,
    {
        proof {
            lemma_pow256_values();
            lemma_pow256_monotonic((i + 1) as nat, 16);
            let longer = data@.subrange(at + width - i - 1, at + width);
            assert(longer.subrange(1, longer.len() as int) =~= data@.subrange(
                at + width - i,
                at + width,
            ));
            lemma_from_le_round_trip(longer);
        }
        value = value * 256 + data[at + width - 1 - i] as u128;
        i = i + 1;
    }
    value
}

/// Appends a copy of `data`.
pub fn put_bytes(out: &mut Vec<u8>, data: &[u8])
    ensures
        final(out)@ == old(out)@ + data@,
{
    out.extend_from_slice(data);
    assert(out@ =~= old(out)@ + data@);
}

/// Whether two byte slices hold the same bytes.
pub fn bytes_equal(a: &[u8], b: &[u8]) -> (same: bool)
    ensures
        same == (a@ == b@),
{
    if a.len() != b.len() {
        return false;
    }
    let mut i: usize = 0;
    while i < a.len()
        invariant
            a@.len() == b@.len(),
            i <= a@.len(),
            forall|j: int| 0 <= j < i ==> a@[j] == b@[j],
        decreases a@.len() - i,
    {
        if a[i] != b[i] {
            return false;
        }
        i = i + 1;
    }
    assert(a@ =~= b@);
    true
}

} // verus!
