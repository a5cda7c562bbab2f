//! Big-endian field codecs of the shadow protocol.
//!
//! Writing is modelled by [`Emit`], the bytes written so far or the first field
//! that cannot be written; reading by [`Scan`], the position reached or the first
//! field that cannot be read. Both are sticky: a fault stays the same fault.
#[allow(unused_imports)]
use crate::bytes::{
    be, bits_of_i64, from_be, i64_of_bits, lemma_be_len, lemma_be_round_trip,
    lemma_from_be_round_trip, lemma_i64_bits, lemma_i64_from_bits, lemma_pow256_values, pow256,
};
use crate::bytes::{put_be, put_bytes, read_be};
#[allow(unused_imports)]
use crate::model::finite;
use crate::model::FloatBits;
use crate::shadow_protocol::ProtocolError;
use crate::text::text_from_utf8;
use vstd::prelude::*;
use vstd::utf8::*;

verus! {

/// The bytes written so far, or the first fault and the bytes written before it.
pub enum Emit {
    Bytes(Seq<u8>),
    Fault(ProtocolError, Seq<u8>),
}

/// The position reached in the input, or the first fault.
pub enum Scan {
    At(int),
    Fault(ProtocolError),
}

/// Whether a writer that went on from some state ended as `state` says.
pub open spec fn emitted(
    outcome: Result<(), ProtocolError>,
    state: Emit,
    written: Seq<u8>,
) -> bool {
    match outcome {
        Ok(_) => state == Emit::Bytes(written),
        Err(e) => state == Emit::Fault(e, written),
    }
}

/// Whether a reader that went on from some position ended as `step` says.
pub open spec fn scanned<T: DeepView>(
    outcome: Result<T, ProtocolError>,
    step: (T::V, Scan),
    after: Scan,
) -> bool {
    match outcome {
        Ok(v) => step.1 == after && v.deep_view() == step.0,
        Err(e) => step.1 == Scan::Fault(e),
    }
}

/// Raises `fault` where there is one.
pub open spec fn emit_check(s: Emit, fault: Option<ProtocolError>) -> Emit {
    match (s, fault) {
        (Emit::Bytes(b), Some(e)) => Emit::Fault(e, b),
        _ => s,
    }
}

pub open spec fn emit_raw(s: Emit, bytes: Seq<u8>) -> Emit {
    match s {
        Emit::Bytes(b) => Emit::Bytes(b + bytes),
        Emit::Fault(..) => s,
    }
}

pub open spec fn emit_u8(s: Emit, v: u8) -> Emit {
    emit_raw(s, seq![v])
}

pub open spec fn emit_bool(s: Emit, v: bool) -> Emit {
    emit_u8(s, if v { 1 } else { 0 })
}

/// The low `width` bytes of a number.
pub open spec fn emit_be(s: Emit, v: nat, width: nat) -> Emit {
    emit_raw(s, be(v, width))
}

pub open spec fn emit_i64(s: Emit, v: i64) -> Emit {
    emit_be(s, bits_of_i64(v), 8)
}

/// A finite number; no other number can be written.
pub open spec fn emit_float(s: Emit, v: FloatBits, field: &'static str) -> Emit {
    emit_be(
        emit_check(
            s,
            if finite(v) {
                None
            } else {
                Some(ProtocolError::InvalidField(field))
            },
        ),
        v.0 as nat,
        8,
    )
}

/// A text of at most `max` bytes, after its length.
pub open spec fn emit_text(s: Emit, v: Seq<char>, max: nat, field: &'static str) -> Emit {
    let n = encode_utf8(v).len();
    let s = emit_check(
        s,
        if n > max || n > 0xffff {
            Some(ProtocolError::InvalidField(field))
        } else {
            None
        },
    );
    emit_raw(emit_be(s, n, 2), encode_utf8(v))
}

/// A text that is not empty, of at most `max` bytes, after its length.
pub open spec fn emit_string(s: Emit, v: Seq<char>, max: nat, field: &'static str) -> Emit {
    let s = emit_check(
        s,
        if encode_utf8(v).len() == 0 {
            Some(ProtocolError::InvalidField(field))
        } else {
            None
        },
    );
    emit_text(s, v, max, field)
}

pub open spec fn emit_option_u128(s: Emit, v: Option<u128>) -> Emit {
    match v {
        Some(v) => emit_be(emit_u8(s, 1), v as nat, 16),
        None => emit_u8(s, 0),
    }
}

pub open spec fn emit_option_u64(s: Emit, v: Option<u64>) -> Emit {
    match v {
        Some(v) => emit_be(emit_u8(s, 1), v as nat, 8),
        None => emit_u8(s, 0),
    }
}

pub open spec fn emit_option_i64(s: Emit, v: Option<i64>) -> Emit {
    match v {
        Some(v) => emit_i64(emit_u8(s, 1), v),
        None => emit_u8(s, 0),
    }
}

pub open spec fn emit_option_float(s: Emit, v: Option<FloatBits>, field: &'static str) -> Emit {
    match v {
        Some(v) => emit_float(emit_u8(s, 1), v, field),
        None => emit_u8(s, 0),
    }
}

/// Raises `fault` where there is one.
pub open spec fn scan_check(s: Scan, fault: Option<ProtocolError>) -> Scan {
    match (s, fault) {
        (Scan::At(_), Some(e)) => Scan::Fault(e),
        _ => s,
    }
}

/// The next `n` bytes.
pub open spec fn scan_raw(b: Seq<u8>, s: Scan, n: nat) -> (Seq<u8>, Scan) {
    match s {
        Scan::Fault(_) => (Seq::empty(), s),
        Scan::At(p) => if p + n > usize::MAX {
            (
                Seq::empty(),
                Scan::Fault(
                    ProtocolError::Truncated { expected: usize::MAX, actual: b.len() as usize },
                ),
            )
        } else if p + n > b.len() {
            (
                Seq::empty(),
                Scan::Fault(
                    ProtocolError::Truncated {
                        expected: (p + n) as usize,
                        actual: b.len() as usize,
                    },
                ),
            )
        } else {
            (b.subrange(p, p + n), Scan::At(p + n))
        },
    }
}

pub open spec fn scan_u8(b: Seq<u8>, s: Scan) -> (u8, Scan) {
    let (bytes, s) = scan_raw(b, s, 1);
    (bytes[0], s)
}

pub open spec fn scan_be(b: Seq<u8>, s: Scan, width: nat) -> (nat, Scan) {
    let (bytes, s) = scan_raw(b, s, width);
    (from_be(bytes), s)
}

pub open spec fn scan_u16(b: Seq<u8>, s: Scan) -> (u16, Scan) {
    let (v, s) = scan_be(b, s, 2);
    (v as u16, s)
}

pub open spec fn scan_u32(b: Seq<u8>, s: Scan) -> (u32, Scan) {
    let (v, s) = scan_be(b, s, 4);
    (v as u32, s)
}

pub open spec fn scan_u64(b: Seq<u8>, s: Scan) -> (u64, Scan) {
    let (v, s) = scan_be(b, s, 8);
    (v as u64, s)
}

pub open spec fn scan_u128(b: Seq<u8>, s: Scan) -> (u128, Scan) {
    let (v, s) = scan_be(b, s, 16);
    (v as u128, s)
}

pub open spec fn scan_i64(b: Seq<u8>, s: Scan) -> (i64, Scan) {
    let (v, s) = scan_be(b, s, 8);
    (i64_of_bits(v), s)
}

/// A byte that must be 0 or 1.
pub open spec fn scan_bool(b: Seq<u8>, s: Scan, field: &'static str) -> (bool, Scan) {
    let (tag, s) = scan_u8(b, s);
    (
        tag == 1,
        scan_check(
            s,
            if tag > 1 {
                Some(ProtocolError::InvalidEnumValue { field, value: tag })
            } else {
                None
            },
        ),
    )
}

/// Bits that must be those of a finite number.
pub open spec fn scan_float(b: Seq<u8>, s: Scan, field: &'static str) -> (FloatBits, Scan) {
    let (bits, s) = scan_u64(b, s);
    (
        FloatBits(bits),
        scan_check(
            s,
            if finite(FloatBits(bits)) {
                None
            } else {
                Some(ProtocolError::InvalidField(field))
            },
        ),
    )
}

/// The next `n` bytes, which must be UTF-8.
pub open spec fn scan_utf8(b: Seq<u8>, s: Scan, n: nat, field: &'static str) -> (Seq<char>, Scan) {
    let (bytes, s) = scan_raw(b, s, n);
    (
        decode_utf8(bytes),
        scan_check(
            s,
            if valid_utf8(bytes) {
                None
            } else {
                Some(ProtocolError::InvalidField(field))
            },
        ),
    )
}

/// A length of at most `max` and a text of that many bytes.
pub open spec fn scan_text(b: Seq<u8>, s: Scan, max: nat, field: &'static str) -> (Seq<char>, Scan) {
    let (n, s) = scan_u16(b, s);
    let s = scan_check(
        s,
        if n > max {
            Some(ProtocolError::InvalidField(field))
        } else {
            None
        },
    );
    scan_utf8(b, s, n as nat, field)
}

/// A positive length of at most `max` and a text of that many bytes.
pub open spec fn scan_string(b: Seq<u8>, s: Scan, max: nat, field: &'static str) -> (
    Seq<char>,
    Scan,
) {
    let (n, s) = scan_u16(b, s);
    let s = scan_check(
        s,
        if n == 0 || n > max {
            Some(ProtocolError::InvalidField(field))
        } else {
            None
        },
    );
    scan_utf8(b, s, n as nat, field)
}

/// A count of at most `max`.
pub open spec fn scan_count(b: Seq<u8>, s: Scan, max: nat, field: &'static str) -> (nat, Scan) {
    let (n, s) = scan_u32(b, s);
    (
        n as nat,
        scan_check(
            s,
            if n > max {
                Some(ProtocolError::InvalidField(field))
            } else {
                None
            },
        ),
    )
}

/// The byte before an optional value: whether the value follows.
pub open spec fn scan_presence(b: Seq<u8>, s: Scan, field: &'static str) -> (bool, Scan) {
    scan_bool(b, s, field)
}

pub open spec fn scan_option_u128(b: Seq<u8>, s: Scan, field: &'static str) -> (
    Option<u128>,
    Scan,
) {
    let (present, s) = scan_presence(b, s, field);
    if present {
        let (v, s) = scan_u128(b, s);
        (Some(v), s)
    } else {
        (None, s)
    }
}

pub open spec fn scan_option_u64(b: Seq<u8>, s: Scan, field: &'static str) -> (Option<u64>, Scan) {
    let (present, s) = scan_presence(b, s, field);
    if present {
        let (v, s) = scan_u64(b, s);
        (Some(v), s)
    } else {
        (None, s)
    }
}

pub open spec fn scan_option_i64(b: Seq<u8>, s: Scan, field: &'static str) -> (Option<i64>, Scan) {
    let (present, s) = scan_presence(b, s, field);
    if present {
        let (v, s) = scan_i64(b, s);
        (Some(v), s)
    } else {
        (None, s)
    }
}

pub open spec fn scan_option_float(b: Seq<u8>, s: Scan, field: &'static str) -> (
    Option<FloatBits>,
    Scan,
) {
    let (present, s) = scan_presence(b, s, field);
    if present {
        let (v, s) = scan_float(b, s, field);
        (Some(v), s)
    } else {
        (None, s)
    }
}

/// Whether every byte of `p` stands at its place in `b`.
pub open spec fn starts(p: Seq<u8>, b: Seq<u8>) -> bool {
    p.len() <= b.len() && b.subrange(0, p.len() as int) == p
}

// What is written is read back, field by field. In each lemma `p` was written
// before the field, `q` after it, and `b` is any input that starts with `q`.

pub proof fn lemma_raw(p: Seq<u8>, v: Seq<u8>, q: Seq<u8>, b: Seq<u8>)
    requires
        emit_raw(Emit::Bytes(p), v) == Emit::Bytes(q),
        starts(q, b),
        b.len() <= usize::MAX,
    ensures
        starts(p, b),
        scan_raw(b, Scan::At(p.len() as int), v.len()) == (v, Scan::At(q.len() as int)),
{
    assert(b.subrange(0, p.len() as int) =~= p) by {
        assert forall|i: int| 0 <= i < p.len() implies b[i] == p[i] by {
            assert(b.subrange(0, q.len() as int)[i] == q[i]);
        }
    }
    assert(b.subrange(p.len() as int, p.len() + v.len() as int) =~= v) by {
        assert forall|i: int| 0 <= i < v.len() implies b[p.len() + i] == v[i] by {
            assert(b.subrange(0, q.len() as int)[p.len() + i] == q[p.len() + i]);
        }
    }
}

pub proof fn lemma_u8(p: Seq<u8>, v: u8, q: Seq<u8>, b: Seq<u8>)
    requires
        emit_u8(Emit::Bytes(p), v) == Emit::Bytes(q),
        starts(q, b),
        b.len() <= usize::MAX,
    ensures
        starts(p, b),
        scan_u8(b, Scan::At(p.len() as int)) == (v, Scan::At(q.len() as int)),
{
    lemma_raw(p, seq![v], q, b);
}

pub proof fn lemma_be(p: Seq<u8>, v: nat, width: nat, q: Seq<u8>, b: Seq<u8>)
    requires
        emit_be(Emit::Bytes(p), v, width) == Emit::Bytes(q),
        v < pow256(width),
        starts(q, b),
        b.len() <= usize::MAX,
    ensures
        starts(p, b),
        scan_be(b, Scan::At(p.len() as int), width) == (v, Scan::At(q.len() as int)),
{
    lemma_be_round_trip(v, width);
    lemma_raw(p, be(v, width), q, b);
}

pub proof fn lemma_u16(p: Seq<u8>, v: u16, q: Seq<u8>, b: Seq<u8>)
    requires
        emit_be(Emit::Bytes(p), v as nat, 2) == Emit::Bytes(q),
        starts(q, b),
        b.len() <= usize::MAX,
    ensures
        starts(p, b),
        scan_u16(b, Scan::At(p.len() as int)) == (v, Scan::At(q.len() as int)),
{
    lemma_pow256_values();
    lemma_be(p, v as nat, 2, q, b);
}

pub proof fn lemma_u32(p: Seq<u8>, v: u32, q: Seq<u8>, b: Seq<u8>)
    requires
        emit_be(Emit::Bytes(p), v as nat, 4) == Emit::Bytes(q),
        starts(q, b),
        b.len() <= usize::MAX,
    ensures
        starts(p, b),
        scan_u32(b, Scan::At(p.len() as int)) == (v, Scan::At(q.len() as int)),
{
    lemma_pow256_values();
    lemma_be(p, v as nat, 4, q, b);
}

pub proof fn lemma_u64(p: Seq<u8>, v: u64, q: Seq<u8>, b: Seq<u8>)
    requires
        emit_be(Emit::Bytes(p), v as nat, 8) == Emit::Bytes(q),
        starts(q, b),
        b.len() <= usize::MAX,
    ensures
        starts(p, b),
        scan_u64(b, Scan::At(p.len() as int)) == (v, Scan::At(q.len() as int)),
{
    lemma_pow256_values();
    lemma_be(p, v as nat, 8, q, b);
}

pub proof fn lemma_u128(p: Seq<u8>, v: u128, q: Seq<u8>, b: Seq<u8>)
    requires
        emit_be(Emit::Bytes(p), v as nat, 16) == Emit::Bytes(q),
        starts(q, b),
        b.len() <= usize::MAX,
    ensures
        starts(p, b),
        scan_u128(b, Scan::At(p.len() as int)) == (v, Scan::At(q.len() as int)),
{
    lemma_pow256_values();
    lemma_be(p, v as nat, 16, q, b);
}

pub proof fn lemma_i64(p: Seq<u8>, v: i64, q: Seq<u8>, b: Seq<u8>)
    requires
        emit_i64(Emit::Bytes(p), v) == Emit::Bytes(q),
        starts(q, b),
        b.len() <= usize::MAX,
    ensures
        starts(p, b),
        scan_i64(b, Scan::At(p.len() as int)) == (v, Scan::At(q.len() as int)),
{
    lemma_i64_bits(v);
    lemma_be(p, bits_of_i64(v), 8, q, b);
}

pub proof fn lemma_bool(p: Seq<u8>, v: bool, q: Seq<u8>, b: Seq<u8>, field: &'static str)
    requires
        emit_bool(Emit::Bytes(p), v) == Emit::Bytes(q),
        starts(q, b),
        b.len() <= usize::MAX,
    ensures
        starts(p, b),
        scan_bool(b, Scan::At(p.len() as int), field) == (v, Scan::At(q.len() as int)),
{
    lemma_u8(p, if v { 1 } else { 0 }, q, b);
}

pub proof fn lemma_float(p: Seq<u8>, v: FloatBits, q: Seq<u8>, b: Seq<u8>, field: &'static str)
    requires
        emit_float(Emit::Bytes(p), v, field) == Emit::Bytes(q),
        starts(q, b),
        b.len() <= usize::MAX,
    ensures
        starts(p, b),
        scan_float(b, Scan::At(p.len() as int), field) == (v, Scan::At(q.len() as int)),
{
    lemma_u64(p, v.0, q, b);
}

pub proof fn lemma_text(
    p: Seq<u8>,
    v: Seq<char>,
    q: Seq<u8>,
    b: Seq<u8>,
    max: nat,
    field: &'static str,
)
    requires
        emit_text(Emit::Bytes(p), v, max, field) == Emit::Bytes(q),
        starts(q, b),
        b.len() <= usize::MAX,
    ensures
        starts(p, b),
        scan_text(b, Scan::At(p.len() as int), max, field) == (v, Scan::At(q.len() as int)),
{
    let bytes = encode_utf8(v);
    let middle = emit_be(Emit::Bytes(p), bytes.len(), 2);
    lemma_raw(middle->Bytes_0, bytes, q, b);
    lemma_u16(p, bytes.len() as u16, middle->Bytes_0, b);
    encode_utf8_valid_utf8(v);
    encode_utf8_decode_utf8(v);
}

pub proof fn lemma_string(
    p: Seq<u8>,
    v: Seq<char>,
    q: Seq<u8>,
    b: Seq<u8>,
    max: nat,
    field: &'static str,
)
    requires
        emit_string(Emit::Bytes(p), v, max, field) == Emit::Bytes(q),
        starts(q, b),
        b.len() <= usize::MAX,
    ensures
        starts(p, b),
        scan_string(b, Scan::At(p.len() as int), max, field) == (v, Scan::At(q.len() as int)),
{
    let bytes = encode_utf8(v);
    let middle = emit_be(Emit::Bytes(p), bytes.len(), 2);
    lemma_raw(middle->Bytes_0, bytes, q, b);
    lemma_u16(p, bytes.len() as u16, middle->Bytes_0, b);
    encode_utf8_valid_utf8(v);
    encode_utf8_decode_utf8(v);
}

pub proof fn lemma_option_u128(
    p: Seq<u8>,
    v: Option<u128>,
    q: Seq<u8>,
    b: Seq<u8>,
    field: &'static str,
)
    requires
        emit_option_u128(Emit::Bytes(p), v) == Emit::Bytes(q),
        starts(q, b),
        b.len() <= usize::MAX,
    ensures
        starts(p, b),
        scan_option_u128(b, Scan::At(p.len() as int), field) == (v, Scan::At(q.len() as int)),
{
    match v {
        Some(inner) => {
            let middle = emit_u8(Emit::Bytes(p), 1)->Bytes_0;
            lemma_u128(middle, inner, q, b);
            lemma_u8(p, 1, middle, b);
        },
        None => {
            lemma_u8(p, 0, q, b);
        },
    }
}

pub proof fn lemma_option_u64(
    p: Seq<u8>,
    v: Option<u64>,
    q: Seq<u8>,
    b: Seq<u8>,
    field: &'static str,
)
    requires
        emit_option_u64(Emit::Bytes(p), v) == Emit::Bytes(q),
        starts(q, b),
        b.len() <= usize::MAX,
    ensures
        starts(p, b),
        scan_option_u64(b, Scan::At(p.len() as int), field) == (v, Scan::At(q.len() as int)),
{
    match v {
        Some(inner) => {
            let middle = emit_u8(Emit::Bytes(p), 1)->Bytes_0;
            lemma_u64(middle, inner, q, b);
            lemma_u8(p, 1, middle, b);
        },
        None => {
            lemma_u8(p, 0, q, b);
        },
    }
}

pub proof fn lemma_option_i64(
    p: Seq<u8>,
    v: Option<i64>,
    q: Seq<u8>,
    b: Seq<u8>,
    field: &'static str,
)
    requires
        emit_option_i64(Emit::Bytes(p), v) == Emit::Bytes(q),
        starts(q, b),
        b.len() <= usize::MAX,
    ensures
        starts(p, b),
        scan_option_i64(b, Scan::At(p.len() as int), field) == (v, Scan::At(q.len() as int)),
{
    match v {
        Some(inner) => {
            let middle = emit_u8(Emit::Bytes(p), 1)->Bytes_0;
            lemma_i64(middle, inner, q, b);
            lemma_u8(p, 1, middle, b);
        },
        None => {
            lemma_u8(p, 0, q, b);
        },
    }
}

pub proof fn lemma_option_float(
    p: Seq<u8>,
    v: Option<FloatBits>,
    q: Seq<u8>,
    b: Seq<u8>,
    field: &'static str,
)
    requires
        emit_option_float(Emit::Bytes(p), v, field) == Emit::Bytes(q),
        starts(q, b),
        b.len() <= usize::MAX,
    ensures
        starts(p, b),
        scan_option_float(b, Scan::At(p.len() as int), field) == (v, Scan::At(q.len() as int)),
{
    match v {
        Some(inner) => {
            let middle = emit_u8(Emit::Bytes(p), 1)->Bytes_0;
            lemma_float(middle, inner, q, b, field);
            lemma_u8(p, 1, middle, b);
        },
        None => {
            lemma_u8(p, 0, q, b);
        },
    }
}

// Writers.

pub fn put_u8(out: &mut Vec<u8>, v: u8)
    ensures
        emit_u8(Emit::Bytes(old(out)@), v) == Emit::Bytes(final(out)@),
{
    out.push(v);
    assert(out@ =~= old(out)@ + seq![v]);
}

pub fn put_bool(out: &mut Vec<u8>, v: bool)
    ensures
        emit_bool(Emit::Bytes(old(out)@), v) == Emit::Bytes(final(out)@),
{
    put_u8(out, if v { 1 } else { 0 });
}

pub fn put_raw(out: &mut Vec<u8>, bytes: &[u8])
    ensures
        emit_raw(Emit::Bytes(old(out)@), bytes@) == Emit::Bytes(final(out)@),
{
    put_bytes(out, bytes);
}

pub fn put_u16(out: &mut Vec<u8>, v: u16)
    ensures
        emit_be(Emit::Bytes(old(out)@), v as nat, 2) == Emit::Bytes(final(out)@),
{
    put_be(out, v as u128, 2);
}

pub fn put_u32(out: &mut Vec<u8>, v: u32)
    ensures
        emit_be(Emit::Bytes(old(out)@), v as nat, 4) == Emit::Bytes(final(out)@),
{
    put_be(out, v as u128, 4);
}

pub fn put_u64(out: &mut Vec<u8>, v: u64)
    ensures
        emit_be(Emit::Bytes(old(out)@), v as nat, 8) == Emit::Bytes(final(out)@),
{
    put_be(out, v as u128, 8);
}

pub fn put_u128(out: &mut Vec<u8>, v: u128)
    ensures
        emit_be(Emit::Bytes(old(out)@), v as nat, 16) == Emit::Bytes(final(out)@),
{
    put_be(out, v, 16);
}

pub fn put_i64(out: &mut Vec<u8>, v: i64)
    ensures
        emit_i64(Emit::Bytes(old(out)@), v) == Emit::Bytes(final(out)@),
{
    proof {
        lemma_i64_bits(v);
    }
    put_be(out, v as u64 as u128, 8);
}

pub fn put_float(out: &mut Vec<u8>, v: FloatBits, field: &'static str) -> (outcome: Result<
    (),
    ProtocolError,
>)
    ensures
        emitted(outcome, emit_float(Emit::Bytes(old(out)@), v, field), final(out)@),
{
    if !v.is_finite() {
        return Err(ProtocolError::InvalidField(field));
    }
    put_u64(out, v.0);
    Ok(())
}

pub fn put_text(out: &mut Vec<u8>, v: &str, max: usize, field: &'static str) -> (outcome: Result<
    (),
    ProtocolError,
>)
    ensures
        emitted(outcome, emit_text(Emit::Bytes(old(out)@), v@, max as nat, field), final(out)@),
{
    let bytes = v.as_bytes();
    let n: usize = bytes.len();
    if n > max || n > 0xffff {
        return Err(ProtocolError::InvalidField(field));
    }
    put_u16(out, n as u16);
    put_bytes(out, bytes);
    Ok(())
}

pub fn put_string(out: &mut Vec<u8>, v: &str, max: usize, field: &'static str) -> (outcome: Result<
    (),
    ProtocolError,
>)
    ensures
        emitted(outcome, emit_string(Emit::Bytes(old(out)@), v@, max as nat, field), final(out)@),
{
    if v.as_bytes().len() == 0 {
        return Err(ProtocolError::InvalidField(field));
    }
    put_text(out, v, max, field)
}

pub fn put_option_u128(out: &mut Vec<u8>, v: Option<u128>)
    ensures
        emit_option_u128(Emit::Bytes(old(out)@), v) == Emit::Bytes(final(out)@),
{
    match v {
        Some(v) => {
            put_u8(out, 1);
            put_u128(out, v);
        },
        None => {
            put_u8(out, 0);
        },
    }
}

pub fn put_option_u64(out: &mut Vec<u8>, v: Option<u64>)
    ensures
        emit_option_u64(Emit::Bytes(old(out)@), v) == Emit::Bytes(final(out)@),
{
    match v {
        Some(v) => {
            put_u8(out, 1);
            put_u64(out, v);
        },
        None => {
            put_u8(out, 0);
        },
    }
}

pub fn put_option_i64(out: &mut Vec<u8>, v: Option<i64>)
    ensures
        emit_option_i64(Emit::Bytes(old(out)@), v) == Emit::Bytes(final(out)@),
{
    match v {
        Some(v) => {
            put_u8(out, 1);
            put_i64(out, v);
        },
        None => {
            put_u8(out, 0);
        },
    }
}

pub fn put_option_float(
    out: &mut Vec<u8>,
    v: Option<FloatBits>,
    field: &'static str,
) -> (outcome: Result<(), ProtocolError>)
    ensures
        emitted(outcome, emit_option_float(Emit::Bytes(old(out)@), v, field), final(out)@),
{
    match v {
        Some(v) => {
            put_u8(out, 1);
            put_float(out, v, field)
        },
        None => {
            put_u8(out, 0);
            Ok(())
        },
    }
}

/// A position in a byte slice that is read from front to back.
pub struct Input<'a> {
    b: &'a [u8],
    p: usize,
}

impl<'a> Input<'a> {
    /// The whole slice.
    pub closed spec fn data(&self) -> Seq<u8> {
        self.b@
    }

    /// The number of bytes read.
    pub closed spec fn position(&self) -> int {
        self.p as int
    }

    /// The position reached.
    pub open spec fn scan(&self) -> Scan {
        Scan::At(self.position())
    }

    /// Whether the position lies within the slice, which a slice in memory bounds.
    pub closed spec fn ok(&self) -> bool {
        self.p <= self.b@.len() <= usize::MAX
    }

    /// The bytes behind the position.
    pub open spec fn left(&self) -> int {
        self.data().len() - self.position()
    }

    /// A position at the start of `b`.
    pub fn new(b: &'a [u8]) -> (input: Self)
        ensures
            input.ok(),
            input.data() == b@,
            input.scan() == Scan::At(0),
    {
        let _n: usize = b.len();
        Input { b, p: 0 }
    }

    /// The next `n` bytes.
    pub fn take(&mut self, n: usize) -> (outcome: Result<&'a [u8], ProtocolError>)
        requires
            old(self).ok(),
        ensures
            final(self).ok(),
            final(self).data() == old(self).data(),
            match outcome {
                Ok(v) => v@.len() == n && scan_raw(
                    old(self).data(),
                    old(self).scan(),
                    n as nat,
                ) == (v@, final(self).scan()),
                Err(e) => scan_raw(old(self).data(), old(self).scan(), n as nat).1 == Scan::Fault(
                    e,
                ),
            },
    {
        let e: usize = match self.p.checked_add(n) {
            Some(e) => e,
            None => {
                return Err(
                    ProtocolError::Truncated { expected: usize::MAX, actual: self.b.len() },
                );
            },
        };
        if e > self.b.len() {
            return Err(ProtocolError::Truncated { expected: e, actual: self.b.len() });
        }
        let v = &self.b[self.p..e];
        self.p = e;
        Ok(v)
    }

    /// The number of bytes that are left.
    pub fn remaining(&self) -> (n: usize)
        requires
            self.ok(),
        ensures
            n == self.left(),
    {
        self.b.len() - self.p
    }

    /// Fails where bytes are left.
    pub fn finish(&self) -> (outcome: Result<(), ProtocolError>)
        requires
            self.ok(),
        ensures
            outcome == if self.left() == 0 {
                Ok::<(), ProtocolError>(())
            } else {
                Err(ProtocolError::TrailingBytes { count: self.left() as usize })
            },
    {
        if self.p == self.b.len() {
            Ok(())
        } else {
            Err(ProtocolError::TrailingBytes { count: self.b.len() - self.p })
        }
    }

    pub fn u8(&mut self) -> (outcome: Result<u8, ProtocolError>)
        requires
            old(self).ok(),
        ensures
            final(self).ok(),
            final(self).data() == old(self).data(),
            scanned(outcome, scan_u8(old(self).data(), old(self).scan()), final(self).scan()),
    {
        let bytes = self.take(1)?;
        Ok(bytes[0])
    }

    fn number(&mut self, width: usize) -> (outcome: Result<u128, ProtocolError>)
        requires
            old(self).ok(),
            width <= 16,
        ensures
            final(self).ok(),
            final(self).data() == old(self).data(),
            match outcome {
                Ok(v) => scan_be(old(self).data(), old(self).scan(), width as nat) == (
                    v as nat,
                    final(self).scan(),
                ) && v < pow256(width as nat),
                Err(e) => scan_be(old(self).data(), old(self).scan(), width as nat).1
                    == Scan::Fault(e),
            },
    {
        let bytes = self.take(width)?;
        assert(bytes@.subrange(0, width as int) =~= bytes@);
        Ok(read_be(bytes, 0, width))
    }

    pub fn u16(&mut self) -> (outcome: Result<u16, ProtocolError>)
        requires
            old(self).ok(),
        ensures
            final(self).ok(),
            final(self).data() == old(self).data(),
            scanned(outcome, scan_u16(old(self).data(), old(self).scan()), final(self).scan()),
    {
        proof {
            lemma_pow256_values();
        }
        let v: u128 = self.number(2)?;
        Ok(v as u16)
    }

    pub fn u32(&mut self) -> (outcome: Result<u32, ProtocolError>)
        requires
            old(self).ok(),
        ensures
            final(self).ok(),
            final(self).data() == old(self).data(),
            scanned(outcome, scan_u32(old(self).data(), old(self).scan()), final(self).scan()),
    {
        proof {
            lemma_pow256_values();
        }
        let v: u128 = self.number(4)?;
        Ok(v as u32)
    }

    pub fn u64(&mut self) -> (outcome: Result<u64, ProtocolError>)
        requires
            old(self).ok(),
        ensures
            final(self).ok(),
            final(self).data() == old(self).data(),
            scanned(outcome, scan_u64(old(self).data(), old(self).scan()), final(self).scan()),
    {
        proof {
            lemma_pow256_values();
        }
        let v: u128 = self.number(8)?;
        Ok(v as u64)
    }

    pub fn u128(&mut self) -> (outcome: Result<u128, ProtocolError>)
        requires
            old(self).ok(),
        ensures
            final(self).ok(),
            final(self).data() == old(self).data(),
            scanned(outcome, scan_u128(old(self).data(), old(self).scan()), final(self).scan()),
    {
        self.number(16)
    }

    pub fn i64(&mut self) -> (outcome: Result<i64, ProtocolError>)
        requires
            old(self).ok(),
        ensures
            final(self).ok(),
            final(self).data() == old(self).data(),
            scanned(outcome, scan_i64(old(self).data(), old(self).scan()), final(self).scan()),
    {
        proof {
            lemma_pow256_values();
        }
        let v: u128 = self.number(8)?;
        let bits: u64 = v as u64;
        proof {
            lemma_i64_from_bits(bits);
        }
        Ok(bits as i64)
    }

    pub fn boolean(&mut self, field: &'static str) -> (outcome: Result<bool, ProtocolError>)
        requires
            old(self).ok(),
        ensures
            final(self).ok(),
            final(self).data() == old(self).data(),
            scanned(outcome, scan_bool(old(self).data(), old(self).scan(), field), final(self).scan()),
    {
        let tag: u8 = self.u8()?;
        match tag {
            0 => Ok(false),
            1 => Ok(true),
            value => Err(ProtocolError::InvalidEnumValue { field, value }),
        }
    }

    pub fn float(&mut self, field: &'static str) -> (outcome: Result<FloatBits, ProtocolError>)
        requires
            old(self).ok(),
        ensures
            final(self).ok(),
            final(self).data() == old(self).data(),
            scanned(outcome, scan_float(old(self).data(), old(self).scan(), field), final(self).scan()),
    {
        let bits: u64 = self.u64()?;
        let value = FloatBits(bits);
        if value.is_finite() {
            Ok(value)
        } else {
            Err(ProtocolError::InvalidField(field))
        }
    }

    fn text_bytes(&mut self, n: usize, field: &'static str) -> (outcome: Result<
        String,
        ProtocolError,
    >)
        requires
            old(self).ok(),
        ensures
            final(self).ok(),
            final(self).data() == old(self).data(),
            scanned(
                outcome,
                scan_utf8(old(self).data(), old(self).scan(), n as nat, field),
                final(self).scan(),
            ),
    {
        let bytes = self.take(n)?;
        match text_from_utf8(bytes) {
            Some(text) => Ok(text),
            None => Err(ProtocolError::InvalidField(field)),
        }
    }

    pub fn string(&mut self, max: usize, field: &'static str) -> (outcome: Result<
        String,
        ProtocolError,
    >)
        requires
            old(self).ok(),
        ensures
            final(self).ok(),
            final(self).data() == old(self).data(),
            scanned(
                outcome,
                scan_string(old(self).data(), old(self).scan(), max as nat, field),
                final(self).scan(),
            ),
    {
        let n: u16 = self.u16()?;
        if n == 0 || n as usize > max {
            return Err(ProtocolError::InvalidField(field));
        }
        self.text_bytes(n as usize, field)
    }

    pub fn text(&mut self, max: usize, field: &'static str) -> (outcome: Result<
        String,
        ProtocolError,
    >)
        requires
            old(self).ok(),
        ensures
            final(self).ok(),
            final(self).data() == old(self).data(),
            scanned(
                outcome,
                scan_text(old(self).data(), old(self).scan(), max as nat, field),
                final(self).scan(),
            ),
    {
        let n: u16 = self.u16()?;
        if n as usize > max {
            return Err(ProtocolError::InvalidField(field));
        }
        self.text_bytes(n as usize, field)
    }

    /// A count of at most `max`.
    pub fn count(&mut self, max: usize, field: &'static str) -> (outcome: Result<
        usize,
        ProtocolError,
    >)
        requires
            old(self).ok(),
        ensures
            final(self).ok(),
            final(self).data() == old(self).data(),
            match outcome {
                Ok(n) => n <= max && scan_count(
                    old(self).data(),
                    old(self).scan(),
                    max as nat,
                    field,
                ) == (n as nat, final(self).scan()),
                Err(e) => scan_count(old(self).data(), old(self).scan(), max as nat, field).1
                    == Scan::Fault(e),
            },
    {
        let n: u32 = self.u32()?;
        if n as usize > max {
            return Err(ProtocolError::InvalidField(field));
        }
        Ok(n as usize)
    }

    pub fn option_u128(&mut self, field: &'static str) -> (outcome: Result<
        Option<u128>,
        ProtocolError,
    >)
        requires
            old(self).ok(),
        ensures
            final(self).ok(),
            final(self).data() == old(self).data(),
            scanned(
                outcome,
                scan_option_u128(old(self).data(), old(self).scan(), field),
                final(self).scan(),
            ),
    {
        if self.boolean(field)? {
            let v: u128 = self.u128()?;
            Ok(Some(v))
        } else {
            Ok(None)
        }
    }

    /// An optional sequence watermark.
    pub fn watermark(&mut self, field: &'static str) -> (outcome: Result<
        Option<u64>,
        ProtocolError,
    >)
        requires
            old(self).ok(),
        ensures
            final(self).ok(),
            final(self).data() == old(self).data(),
            scanned(
                outcome,
                scan_option_u64(old(self).data(), old(self).scan(), field),
                final(self).scan(),
            ),
    {
        if self.boolean(field)? {
            let v: u64 = self.u64()?;
            Ok(Some(v))
        } else {
            Ok(None)
        }
    }

    pub fn option_i64(&mut self, field: &'static str) -> (outcome: Result<
        Option<i64>,
        ProtocolError,
    >)
        requires
            old(self).ok(),
        ensures
            final(self).ok(),
            final(self).data() == old(self).data(),
            scanned(
                outcome,
                scan_option_i64(old(self).data(), old(self).scan(), field),
                final(self).scan(),
            ),
    {
        if self.boolean(field)? {
            let v: i64 = self.i64()?;
            Ok(Some(v))
        } else {
            Ok(None)
        }
    }

    pub fn option_float(&mut self, field: &'static str) -> (outcome: Result<
        Option<FloatBits>,
        ProtocolError,
    >)
        requires
            old(self).ok(),
        ensures
            final(self).ok(),
            final(self).data() == old(self).data(),
            scanned(
                outcome,
                scan_option_float(old(self).data(), old(self).scan(), field),
                final(self).scan(),
            ),
    {
        if self.boolean(field)? {
            let v: FloatBits = self.float(field)?;
            Ok(Some(v))
        } else {
            Ok(None)
        }
    }
}

} // verus!
