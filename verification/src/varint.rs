//! Variable-length integers: seven bits a byte, least significant bits first.
use vstd::prelude::*;

verus! {

/// The bytes of a number. Every byte but the last has its high bit set.
pub open spec fn varint(v: nat) -> Seq<u8>
    decreases v,
{
    if v < 128 {
        seq![v as u8]
    } else {
        seq![(v % 128 + 128) as u8] + varint(v / 128)
    }
}

/// The bytes of several numbers, one behind the other.
pub open spec fn varints(xs: Seq<nat>) -> Seq<u8>
    decreases xs.len(),
{
    if xs.len() == 0 {
        Seq::empty()
    } else {
        varints(xs.drop_last()) + varint(xs.last())
    }
}

/// The bound on a number whose first byte is the byte `index` of a 128-bit number.
pub open spec fn room(index: nat) -> nat
    decreases 18 - index,
{
    if index >= 18 {
        4
    } else {
        128 * room(index + 1)
    }
}

/// The number whose bytes start at `at` as the bytes from `index` on of a number
/// of at most `max` bytes, and the position behind it.
pub open spec fn scan_varint(b: Seq<u8>, at: int, index: nat, max: nat) -> Result<
    (nat, int),
    &'static str,
>
    decreases max - index,
{
    if index >= max {
        Err("varint is too long")
    } else if at >= b.len() {
        Err("truncated varint")
    } else if index >= 18 && (index > 18 || b[at] % 128 > 3) {
        Err("varint overflows")
    } else if b[at] < 128 {
        Ok((b[at] as nat, at + 1))
    } else {
        match scan_varint(b, at + 1, index + 1, max) {
            Ok((rest, end)) => Ok(((b[at] % 128) as nat + 128 * rest, end)),
            Err(e) => Err(e),
        }
    }
}

/// A signed number as an unsigned one that is small where the number is near zero.
pub open spec fn zigzag(v: int) -> nat {
    if v >= 0 {
        (2 * v) as nat
    } else {
        (-2 * v - 1) as nat
    }
}

pub open spec fn unzigzag(v: nat) -> int {
    if v % 2 == 0 {
        (v / 2) as int
    } else {
        -((v / 2) as int) - 1
    }
}

pub proof fn lemma_room_values()
    ensures
        room(0) == 0x1_0000_0000_0000_0000_0000_0000_0000_0000,
{
    reveal_with_fuel(room, 19);
}

/// A number takes at least one byte and at most as many as its size asks for.
pub proof fn lemma_varint_len(v: nat)
    ensures
        1 <= varint(v).len(),
        v <= u32::MAX ==> varint(v).len() <= 5,
        v <= u64::MAX ==> varint(v).len() <= 10,
        v <= u128::MAX ==> varint(v).len() <= 19,
{
    reveal_with_fuel(varint, 20);
}

/// A number is read back where its bytes stand.
pub proof fn lemma_scan_varint(b: Seq<u8>, at: int, v: nat, index: nat, max: nat)
    requires
        0 <= at,
        at + varint(v).len() <= b.len(),
        b.subrange(at, at + varint(v).len()) == varint(v),
        index + varint(v).len() <= max <= 19,
        v < room(index),
    ensures
        scan_varint(b, at, index, max) == Ok::<(nat, int), &'static str>(
            (v, at + varint(v).len()),
        ),
    decreases v,
{
    let bytes = varint(v);
    assert(b.subrange(at, at + bytes.len())[0] == bytes[0]);
    if v >= 128 {
        let rest = varint(v / 128);
        assert(bytes.subrange(1, bytes.len() as int) =~= rest);
        assert(b.subrange(at + 1, at + 1 + rest.len()) =~= rest) by {
            assert forall|i: int| 0 <= i < rest.len() implies b[at + 1 + i] == rest[i] by {
                assert(b.subrange(at, at + bytes.len())[i + 1] == bytes[i + 1]);
            }
        }
        lemma_varint_len(v / 128);
        lemma_scan_varint(b, at + 1, v / 128, index + 1, max);
    }
}

/// Where the numbers of a sequence stand.
pub proof fn lemma_varints_prefix(xs: Seq<nat>, n: int)
    requires
        0 <= n <= xs.len(),
    ensures
        varints(xs.take(n)).len() <= varints(xs).len(),
        varints(xs).subrange(0, varints(xs.take(n)).len() as int) == varints(xs.take(n)),
    decreases xs.len() - n,
{
    if n < xs.len() {
        lemma_varints_prefix(xs, n + 1);
        assert(xs.take(n + 1).drop_last() =~= xs.take(n));
        let longer = varints(xs.take(n + 1));
        let shorter = varints(xs.take(n));
        assert(longer.subrange(0, shorter.len() as int) =~= shorter);
        assert(varints(xs).subrange(0, shorter.len() as int) =~= shorter) by {
            assert forall|i: int| 0 <= i < shorter.len() implies varints(xs)[i] == shorter[i] by {
                assert(varints(xs).subrange(0, longer.len() as int)[i] == longer[i]);
            }
        }
    } else {
        assert(xs.take(n) =~= xs);
        assert(varints(xs).subrange(0, varints(xs).len() as int) =~= varints(xs));
    }
}

/// The number at `j` of a sequence is read back behind the numbers before it.
pub proof fn lemma_varints_at(head: Seq<u8>, xs: Seq<nat>, b: Seq<u8>, j: int, max: nat)
    requires
        b == head + varints(xs),
        0 <= j < xs.len(),
        max == 10 || max == 19,
        xs[j] <= u128::MAX,
        max == 10 ==> xs[j] <= u64::MAX,
    ensures
        scan_varint(b, (head.len() + varints(xs.take(j)).len()) as int, 0, max) == Ok::<
            (nat, int),
            &'static str,
        >((xs[j], (head.len() + varints(xs.take(j + 1)).len()) as int)),
        varints(xs.take(j + 1)).len() <= varints(xs).len(),
{
    lemma_varints_prefix(xs, j + 1);
    assert(xs.take(j + 1).drop_last() =~= xs.take(j));
    let before = varints(xs.take(j));
    let after = varints(xs.take(j + 1));
    let v = xs[j];
    let at = (head.len() + before.len()) as int;
    assert(after =~= before + varint(v));
    assert(b.subrange(at, at + varint(v).len()) =~= varint(v)) by {
        assert forall|i: int| 0 <= i < varint(v).len() implies b[at + i] == varint(v)[i] by {
            assert(varints(xs).subrange(0, after.len() as int)[before.len() + i] == after[before.len()
                + i]);
        }
    }
    lemma_varint_len(v);
    lemma_room_values();
    lemma_scan_varint(b, at, v, 0, max);
}

/// The bytes of a sequence of numbers: at least one each, at most `most` each.
pub proof fn lemma_varints_len(xs: Seq<nat>, most: nat)
    requires
        most == 5 || most == 10 || most == 19,
        forall|i: int|
            0 <= i < xs.len() ==> #[trigger] xs[i] <= u128::MAX && (most == 10 ==> xs[i]
                <= u64::MAX) && (most == 5 ==> xs[i] <= u32::MAX),
    ensures
        xs.len() <= varints(xs).len() <= xs.len() * most,
    decreases xs.len(),
{
    if xs.len() > 0 {
        let front = xs.drop_last();
        assert forall|i: int| 0 <= i < front.len() implies #[trigger] front[i] <= u128::MAX && (most
            == 10 ==> front[i] <= u64::MAX) && (most == 5 ==> front[i] <= u32::MAX) by {
            assert(front[i] == xs[i]);
        }
        lemma_varints_len(front, most);
        let last = xs[xs.len() - 1];
        lemma_varint_len(last);
        assert(xs.len() * most == front.len() * most + most) by (nonlinear_arith)
            requires
                xs.len() == front.len() + 1,
        ;
    }
}

pub proof fn lemma_zigzag(v: i64)
    ensures
        zigzag(v as int) <= u64::MAX,
        unzigzag(zigzag(v as int)) == v,
{
}

/// Appends a number.
pub fn put_varint(out: &mut Vec<u8>, v: u128)
    ensures
        final(out)@ == old(out)@ + varint(v as nat),
    decreases v,
{
    if v >= 128 {
        out.push((v % 128 + 128) as u8);
        put_varint(out, v / 128);
        assert(out@ =~= old(out)@ + varint(v as nat));
    } else {
        out.push(v as u8);
        assert(out@ =~= old(out)@ + varint(v as nat));
    }
}

/// Appends a signed number.
pub fn put_signed(out: &mut Vec<u8>, v: i64)
    ensures
        final(out)@ == old(out)@ + varint(zigzag(v as int)),
{
    if v >= 0 {
        put_varint(out, 2 * (v as u128));
    } else {
        let magnitude: i128 = -(v as i128);
        put_varint(out, (2 * magnitude - 1) as u128);
    }
}

/// Reads a number of at most `max` bytes at `at`.
pub fn take_varint(source: &[u8], at: usize, max: usize) -> (outcome: Result<
    (u128, usize),
    &'static str,
>)
    requires
        at <= source@.len(),
        max <= 19,
    ensures
        match outcome {
            Ok((v, end)) => scan_varint(source@, at as int, 0, max as nat) == Ok::<
                (nat, int),
                &'static str,
            >((v as nat, end as int)) && at <= end <= source@.len(),
            Err(e) => scan_varint(source@, at as int, 0, max as nat) == Err::<
                (nat, int),
                &'static str,
            >(e),
        },
{
    proof {
        lemma_room_values();
    }
    take_varint_from(source, at, 0, max)
}

fn take_varint_from(source: &[u8], at: usize, index: usize, max: usize) -> (outcome: Result<
    (u128, usize),
    &'static str,
>)
    requires
        at <= source@.len(),
        index <= max <= 19,
        room(0) == 0x1_0000_0000_0000_0000_0000_0000_0000_0000,
    ensures
        match outcome {
            Ok((v, end)) => scan_varint(source@, at as int, index as nat, max as nat) == Ok::<
                (nat, int),
                &'static str,
            >((v as nat, end as int)) && v < room(index as nat) && at <= end <= source@.len(),
            Err(e) => scan_varint(source@, at as int, index as nat, max as nat) == Err::<
                (nat, int),
                &'static str,
            >(e),
        },
    decreases max - index,
{
    if index >= max {
        return Err("varint is too long");
    }
    if at >= source.len() {
        return Err("truncated varint");
    }
    let byte: u8 = source[at];
    if index >= 18 && byte % 128 > 3 {
        return Err("varint overflows");
    }
    proof {
        lemma_room_at_least(index as nat);
    }
    if byte < 128 {
        return Ok((byte as u128, at + 1));
    }
    let (rest, end) = match take_varint_from(source, at + 1, index + 1, max) {
        Ok(found) => found,
        Err(e) => {
            return Err(e);
        },
    };
    proof {
        lemma_room_at_most(index as nat);
    }
    Ok(((byte % 128) as u128 + 128 * rest, end))
}

proof fn lemma_room_at_least(index: nat)
    ensures
        index < 18 ==> room(index) >= 512,
        index < 18 ==> room(index) == 128 * room(index + 1),
    decreases 18 - index,
{
    if index < 17 {
        lemma_room_at_least(index + 1);
    } else if index == 17 {
        assert(room(18) == 4);
    }
}

proof fn lemma_room_at_most(index: nat)
    ensures
        index <= 18 ==> room(index) <= room(0),
    decreases index,
{
    if 0 < index <= 18 {
        lemma_room_at_most((index - 1) as nat);
    }
}

} // verus!
