//! The wire form of the catalog records and points of a commit batch.
#[allow(unused_imports)]
use crate::model::{
    checked, plan_fault, series_fault, EntityModel, PlanModel, PolicyModel, PropertiesModel,
    PropertyModel, RelationModel, ResolutionModel, RunModel, SeriesModel, TierModel,
};
use crate::model::{
    CalendarUnit, Entity, EntityId, FloatBits, Plan, PlanStatus, Point, Properties, PropertyValue,
    Relation, RelationId, RollupPolicy, RollupResolution, RollupTier, Run, RunId, RunKind,
    RunStatus, SeriesDefinition, SeriesSemantics,
};
use crate::shadow_protocol::{
    ProtocolError, MAX_KEY_BYTES, MAX_PROPERTIES, MAX_ROLLUP_TIERS, MAX_TEXT_BYTES,
};
use crate::text::is_text_less;
#[allow(unused_imports)]
use crate::text::text_less;
#[allow(unused_imports)]
use crate::text_map::keys_ascend;
use crate::text_map::TextMap;
#[allow(unused_imports)]
use crate::wire::{
    emit_be, emit_bool, emit_check, emit_float, emit_i64, emit_option_float, emit_option_i64,
    emit_option_u128, emit_string, emit_text, emit_u8, emitted, lemma_be, lemma_bool, lemma_float,
    lemma_i64, lemma_option_float, lemma_option_i64, lemma_option_u128, lemma_string, lemma_text,
    lemma_u128, lemma_u32, lemma_u64, lemma_u8, scan_bool, scan_check, scan_count, scan_float,
    scan_i64, scan_option_float, scan_option_i64, scan_option_u128, scan_string, scan_text,
    scan_u128, scan_u32, scan_u64, scan_u8, scanned, starts, Emit, Scan,
};
use crate::wire::{
    put_bool, put_float, put_i64, put_option_float, put_option_i64, put_option_u128, put_string,
    put_text, put_u128, put_u32, put_u64, put_u8, Input,
};
use vstd::prelude::*;

verus! {

/// A value with a wire form.
pub trait WireRecord: DeepView + Sized {
    /// What has been written once `v` follows what `s` holds.
    spec fn emit(s: Emit, v: Self::V) -> Emit;

    /// The value at the position `s` of `b`, and the position behind it.
    spec fn scan(b: Seq<u8>, s: Scan) -> (Self::V, Scan);

    /// Whether every map inside the value is in ascending key order.
    spec fn ordered(v: Self::V) -> bool;

    fn put(&self, out: &mut Vec<u8>) -> (outcome: Result<(), ProtocolError>)
        ensures
            emitted(outcome, Self::emit(Emit::Bytes(old(out)@), self.deep_view()), final(out)@),
    ;

    fn take<'a>(input: &mut Input<'a>) -> (outcome: Result<Self, ProtocolError>)
        requires
            old(input).ok(),
        ensures
            final(input).ok(),
            final(input).data() == old(input).data(),
            scanned(outcome, Self::scan(old(input).data(), old(input).scan()), final(input).scan()),
    ;

    /// A fault stays the same fault.
    proof fn faults_stay(b: Seq<u8>, v: Self::V)
        ensures
            forall|s: Emit| s is Fault ==> #[trigger] Self::emit(s, v) == s,
            forall|s: Scan| s is Fault ==> (#[trigger] Self::scan(b, s)).1 == s,
    ;

    proof fn read_back(p: Seq<u8>, v: Self::V, q: Seq<u8>, b: Seq<u8>)
        requires
            Self::ordered(v),
            Self::emit(Emit::Bytes(p), v) == Emit::Bytes(q),
            starts(q, b),
            b.len() <= usize::MAX,
        ensures
            starts(p, b),
            Self::scan(b, Scan::At(p.len() as int)) == (v, Scan::At(q.len() as int)),
    ;
}

/// The rule of the model that a record breaks, as a protocol error.
pub open spec fn field_fault(fault: Option<&'static str>) -> Option<ProtocolError> {
    match fault {
        Some(reason) => Some(ProtocolError::InvalidField(reason)),
        None => None,
    }
}

/// The fault `field` where a condition fails.
pub open spec fn unless(holds: bool, field: &'static str) -> Option<ProtocolError> {
    if holds {
        None
    } else {
        Some(ProtocolError::InvalidField(field))
    }
}

// Sequences of records.

/// Every record of `v`, one behind the other.
pub open spec fn emit_all<T: WireRecord>(s: Emit, v: Seq<T::V>) -> Emit
    decreases v.len(),
{
    if v.len() == 0 {
        s
    } else {
        T::emit(emit_all::<T>(s, v.drop_last()), v.last())
    }
}

/// The next `n` records.
pub open spec fn scan_all<T: WireRecord>(b: Seq<u8>, s: Scan, n: nat) -> (Seq<T::V>, Scan)
    decreases n,
{
    if n == 0 {
        (Seq::empty(), s)
    } else {
        let (front, s) = scan_all::<T>(b, s, (n - 1) as nat);
        let (last, s) = T::scan(b, s);
        (front.push(last), s)
    }
}

/// Whether every record is ordered.
pub open spec fn all_ordered<T: WireRecord>(v: Seq<T::V>) -> bool {
    forall|i: int| 0 <= i < v.len() ==> T::ordered(#[trigger] v[i])
}

pub proof fn lemma_emit_all_fault<T: WireRecord>(v: Seq<T::V>, n: int, s: Emit, f: Emit)
    requires
        0 <= n <= v.len(),
        f is Fault,
        emit_all::<T>(s, v.take(n)) == f,
    ensures
        emit_all::<T>(s, v) == f,
    decreases v.len() - n,
{
    if n < v.len() {
        assert(v.take(n + 1).drop_last() =~= v.take(n));
        T::faults_stay(Seq::empty(), v.take(n + 1).last());
        lemma_emit_all_fault::<T>(v, n + 1, s, f);
    } else {
        assert(v.take(n) =~= v);
    }
}

pub proof fn lemma_scan_all_fault<T: WireRecord>(
    b: Seq<u8>,
    s: Scan,
    m: nat,
    n: nat,
    e: ProtocolError,
)
    requires
        m <= n,
        scan_all::<T>(b, s, m).1 == Scan::Fault(e),
    ensures
        scan_all::<T>(b, s, n).1 == Scan::Fault(e),
    decreases n,
{
    if m < n {
        lemma_scan_all_fault::<T>(b, s, m, (n - 1) as nat, e);
        T::faults_stay(b, arbitrary());
    }
}

/// A sequence that starts from a fault ends with that fault.
pub proof fn lemma_all_faults_stay<T: WireRecord>(b: Seq<u8>, v: Seq<T::V>)
    ensures
        forall|s: Emit| s is Fault ==> #[trigger] emit_all::<T>(s, v) == s,
        forall|s: Scan, n: nat| s is Fault ==> (#[trigger] scan_all::<T>(b, s, n)).1 == s,
{
    assert forall|s: Emit| s is Fault implies #[trigger] emit_all::<T>(s, v) == s by {
        assert(v.take(0).len() == 0);
        lemma_emit_all_fault::<T>(v, 0, s, s);
    }
    assert forall|s: Scan, n: nat| s is Fault implies (#[trigger] scan_all::<T>(b, s, n)).1
        == s by {
        lemma_scan_all_fault::<T>(b, s, 0, n, s->Fault_0);
    }
}

/// A sequence of records is read back as it was written.
pub proof fn lemma_all_read_back<T: WireRecord>(
    p: Seq<u8>,
    v: Seq<T::V>,
    q: Seq<u8>,
    b: Seq<u8>,
)
    requires
        all_ordered::<T>(v),
        emit_all::<T>(Emit::Bytes(p), v) == Emit::Bytes(q),
        starts(q, b),
        b.len() <= usize::MAX,
    ensures
        starts(p, b),
        scan_all::<T>(b, Scan::At(p.len() as int), v.len()) == (v, Scan::At(q.len() as int)),
    decreases v.len(),
{
    if v.len() > 0 {
        let s = emit_all::<T>(Emit::Bytes(p), v.drop_last());
        match s {
            Emit::Fault(..) => {
                T::faults_stay(b, v.last());
            },
            Emit::Bytes(m) => {
                T::read_back(m, v.last(), q, b);
                assert(all_ordered::<T>(v.drop_last())) by {
                    assert forall|i: int| 0 <= i < v.len() - 1 implies T::ordered(
                        #[trigger] v.drop_last()[i],
                    ) by {
                        assert(T::ordered(v[i]));
                    }
                }
                lemma_all_read_back::<T>(p, v.drop_last(), m, b);
                assert(v.drop_last().push(v.last()) =~= v);
            },
        }
    } else {
        assert(v =~= Seq::empty());
    }
}

/// Appends every record.
pub fn put_all<T: WireRecord>(out: &mut Vec<u8>, records: &Vec<T>) -> (outcome: Result<
    (),
    ProtocolError,
>)
    ensures
        emitted(
            outcome,
            emit_all::<T>(Emit::Bytes(old(out)@), records.deep_view()),
            final(out)@,
        ),
{
    let ghost model = records.deep_view();
    let mut i: usize = 0;
    assert(model.take(0).len() == 0);
    while i < records.len()
        invariant
            i <= records@.len(),
            model == records.deep_view(),
            emit_all::<T>(Emit::Bytes(old(out)@), model.take(i as int)) == Emit::Bytes(out@),
        decreases records@.len() - i,
    {
        let ghost before = out@;
        let outcome = records[i].put(out);
        proof {
            assert(model.take(i + 1).drop_last() =~= model.take(i as int));
            assert(model.take(i + 1).last() == records@[i as int].deep_view());
        }
        if let Err(e) = outcome {
            proof {
                lemma_emit_all_fault::<T>(
                    model,
                    i + 1,
                    Emit::Bytes(old(out)@),
                    Emit::Fault(e, out@),
                );
            }
            return Err(e);
        }
        i = i + 1;
    }
    assert(model.take(model.len() as int) =~= model);
    Ok(())
}

/// Reads the next `n` records.
#[verifier::loop_isolation(false)]
pub fn take_all<'a, T: WireRecord>(input: &mut Input<'a>, n: usize) -> (outcome: Result<
    Vec<T>,
    ProtocolError,
>)
    requires
        old(input).ok(),
    ensures
        final(input).ok(),
        final(input).data() == old(input).data(),
        scanned(
            outcome,
            scan_all::<T>(old(input).data(), old(input).scan(), n as nat),
            final(input).scan(),
        ),
{
    let ghost b = input.data();
    let ghost start = input.scan();
    let mut records: Vec<T> = Vec::new();
    assert(records.deep_view() =~= Seq::<T::V>::empty());
    let mut i: usize = 0;
    while i < n
        invariant
            i <= n,
            input.ok(),
            input.data() == b,
            scan_all::<T>(b, start, i as nat) == (records.deep_view(), input.scan()),
        decreases n - i,
    {
        let ghost before = records.deep_view();
        match T::take(input) {
            Ok(record) => {
                records.push(record);
                assert(records.deep_view() =~= before.push(record.deep_view()));
            },
            Err(e) => {
                proof {
                    lemma_scan_all_fault::<T>(b, start, (i + 1) as nat, n as nat, e);
                }
                return Err(e);
            },
        }
        i = i + 1;
    }
    Ok(records)
}

// Maps: a count, then key and value of each entry in ascending key order.

/// Every entry, one behind the other.
pub open spec fn emit_entries<T: WireRecord>(
    s: Emit,
    v: Seq<(Seq<char>, T::V)>,
    key_field: &'static str,
) -> Emit
    decreases v.len(),
{
    if v.len() == 0 {
        s
    } else {
        let s = emit_entries::<T>(s, v.drop_last(), key_field);
        let s = emit_string(s, v.last().0, MAX_KEY_BYTES as nat, key_field);
        T::emit(s, v.last().1)
    }
}

/// The next `n` entries, whose keys must ascend.
pub open spec fn scan_entries<T: WireRecord>(
    b: Seq<u8>,
    s: Scan,
    n: nat,
    key_field: &'static str,
    order_field: &'static str,
) -> (Seq<(Seq<char>, T::V)>, Scan)
    decreases n,
{
    if n == 0 {
        (Seq::empty(), s)
    } else {
        let (front, s) = scan_entries::<T>(b, s, (n - 1) as nat, key_field, order_field);
        let (key, s) = scan_string(b, s, MAX_KEY_BYTES as nat, key_field);
        let s = scan_check(
            s,
            unless(front.len() == 0 || text_less(front.last().0, key), order_field),
        );
        let (value, s) = T::scan(b, s);
        (front.push((key, value)), s)
    }
}

pub proof fn lemma_emit_entries_fault<T: WireRecord>(
    v: Seq<(Seq<char>, T::V)>,
    n: int,
    s: Emit,
    key_field: &'static str,
    f: Emit,
)
    requires
        0 <= n <= v.len(),
        f is Fault,
        emit_entries::<T>(s, v.take(n), key_field) == f,
    ensures
        emit_entries::<T>(s, v, key_field) == f,
    decreases v.len() - n,
{
    if n < v.len() {
        assert(v.take(n + 1).drop_last() =~= v.take(n));
        T::faults_stay(Seq::empty(), v.take(n + 1).last().1);
        lemma_emit_entries_fault::<T>(v, n + 1, s, key_field, f);
    } else {
        assert(v.take(n) =~= v);
    }
}

pub proof fn lemma_scan_entries_fault<T: WireRecord>(
    b: Seq<u8>,
    s: Scan,
    m: nat,
    n: nat,
    key_field: &'static str,
    order_field: &'static str,
    e: ProtocolError,
)
    requires
        m <= n,
        scan_entries::<T>(b, s, m, key_field, order_field).1 == Scan::Fault(e),
    ensures
        scan_entries::<T>(b, s, n, key_field, order_field).1 == Scan::Fault(e),
    decreases n,
{
    if m < n {
        lemma_scan_entries_fault::<T>(b, s, m, (n - 1) as nat, key_field, order_field, e);
        T::faults_stay(b, arbitrary());
    }
}

pub open spec fn entries_ordered<T: WireRecord>(v: Seq<(Seq<char>, T::V)>) -> bool {
    &&& keys_ascend(v)
    &&& forall|i: int| 0 <= i < v.len() ==> T::ordered((#[trigger] v[i]).1)
}

proof fn lemma_entries_read_back<T: WireRecord>(
    p: Seq<u8>,
    v: Seq<(Seq<char>, T::V)>,
    q: Seq<u8>,
    b: Seq<u8>,
    key_field: &'static str,
    order_field: &'static str,
)
    requires
        entries_ordered::<T>(v),
        emit_entries::<T>(Emit::Bytes(p), v, key_field) == Emit::Bytes(q),
        starts(q, b),
        b.len() <= usize::MAX,
    ensures
        starts(p, b),
        scan_entries::<T>(b, Scan::At(p.len() as int), v.len(), key_field, order_field) == (
            v,
            Scan::At(q.len() as int),
        ),
    decreases v.len(),
{
    if v.len() > 0 {
        let front = v.drop_last();
        let s1 = emit_entries::<T>(Emit::Bytes(p), front, key_field);
        let s2 = emit_string(s1, v.last().0, MAX_KEY_BYTES as nat, key_field);
        match s2 {
            Emit::Fault(..) => {
                T::faults_stay(b, v.last().1);
            },
            Emit::Bytes(m2) => {
                let m1 = s1->Bytes_0;
                T::read_back(m2, v.last().1, q, b);
                lemma_string(m1, v.last().0, m2, b, MAX_KEY_BYTES as nat, key_field);
                assert(entries_ordered::<T>(front)) by {
                    assert forall|i: int, j: int|
                        #![trigger front[i], front[j]]
                        0 <= i < j < front.len() implies text_less(front[i].0, front[j].0) by {
                        let x = v[i];
                        let y = v[j];
                    }
                    assert forall|i: int| 0 <= i < front.len() implies T::ordered(
                        (#[trigger] front[i]).1,
                    ) by {
                        assert(T::ordered(v[i].1));
                    }
                }
                lemma_entries_read_back::<T>(p, front, m1, b, key_field, order_field);
                if front.len() > 0 {
                    let x = v[v.len() - 2];
                    let y = v[v.len() - 1];
                    assert(text_less(x.0, y.0));
                    assert(front.last() == x);
                }
                assert(front.push(v.last()) =~= v);
            },
        }
    } else {
        assert(v =~= Seq::empty());
    }
}

/// A map of at most `MAX_PROPERTIES` entries.
pub open spec fn emit_map<T: WireRecord>(
    s: Emit,
    v: Seq<(Seq<char>, T::V)>,
    size_field: &'static str,
    key_field: &'static str,
) -> Emit {
    let s = emit_check(s, unless(v.len() <= MAX_PROPERTIES, size_field));
    let s = emit_be(s, v.len(), 4);
    emit_entries::<T>(s, v, key_field)
}

pub open spec fn scan_map<T: WireRecord>(
    b: Seq<u8>,
    s: Scan,
    count_field: &'static str,
    key_field: &'static str,
    order_field: &'static str,
) -> (Seq<(Seq<char>, T::V)>, Scan) {
    let (n, s) = scan_count(b, s, MAX_PROPERTIES as nat, count_field);
    scan_entries::<T>(b, s, n, key_field, order_field)
}

/// A map that starts from a fault ends with that fault.
pub proof fn lemma_map_faults_stay<T: WireRecord>(
    b: Seq<u8>,
    v: Seq<(Seq<char>, T::V)>,
    size_field: &'static str,
    count_field: &'static str,
    key_field: &'static str,
    order_field: &'static str,
)
    ensures
        forall|s: Emit|
            s is Fault ==> #[trigger] emit_map::<T>(s, v, size_field, key_field) == s,
        forall|s: Scan|
            s is Fault ==> (#[trigger] scan_map::<T>(
                b,
                s,
                count_field,
                key_field,
                order_field,
            )).1 == s,
{
    lemma_entries_fault_stays::<T>(b, v, key_field, order_field);
}

pub proof fn lemma_entries_fault_stays<T: WireRecord>(
    b: Seq<u8>,
    v: Seq<(Seq<char>, T::V)>,
    key_field: &'static str,
    order_field: &'static str,
)
    ensures
        forall|s: Emit| s is Fault ==> #[trigger] emit_entries::<T>(s, v, key_field) == s,
        forall|s: Scan, n: nat|
            s is Fault ==> (#[trigger] scan_entries::<T>(b, s, n, key_field, order_field)).1 == s,
{
    assert forall|s: Emit| s is Fault implies #[trigger] emit_entries::<T>(s, v, key_field)
        == s by {
        assert(v.take(0).len() == 0);
        lemma_emit_entries_fault::<T>(v, 0, s, key_field, s);
    }
    assert forall|s: Scan, n: nat| s is Fault implies (#[trigger] scan_entries::<T>(
        b,
        s,
        n,
        key_field,
        order_field,
    )).1 == s by {
        lemma_scan_entries_fault::<T>(b, s, 0, n, key_field, order_field, s->Fault_0);
    }
}

/// A count within its limit is read back.
pub proof fn lemma_count(
    p: Seq<u8>,
    n: nat,
    q: Seq<u8>,
    b: Seq<u8>,
    max: nat,
    field: &'static str,
)
    requires
        emit_be(Emit::Bytes(p), n, 4) == Emit::Bytes(q),
        n <= max <= u32::MAX,
        starts(q, b),
        b.len() <= usize::MAX,
    ensures
        starts(p, b),
        scan_count(b, Scan::At(p.len() as int), max, field) == (n, Scan::At(q.len() as int)),
{
    lemma_u32(p, n as u32, q, b);
}

pub proof fn lemma_map_read_back<T: WireRecord>(
    p: Seq<u8>,
    v: Seq<(Seq<char>, T::V)>,
    q: Seq<u8>,
    b: Seq<u8>,
    size_field: &'static str,
    count_field: &'static str,
    key_field: &'static str,
    order_field: &'static str,
)
    requires
        entries_ordered::<T>(v),
        emit_map::<T>(Emit::Bytes(p), v, size_field, key_field) == Emit::Bytes(q),
        starts(q, b),
        b.len() <= usize::MAX,
    ensures
        starts(p, b),
        scan_map::<T>(b, Scan::At(p.len() as int), count_field, key_field, order_field) == (
            v,
            Scan::At(q.len() as int),
        ),
{
    let s1 = emit_check(Emit::Bytes(p), unless(v.len() <= MAX_PROPERTIES, size_field));
    if v.len() > MAX_PROPERTIES {
        lemma_entries_fault_stays::<T>(b, v, key_field, order_field);
    }
    let s2 = emit_be(s1, v.len(), 4);
    lemma_entries_read_back::<T>(s2->Bytes_0, v, q, b, key_field, order_field);
    lemma_count(p, v.len(), s2->Bytes_0, b, MAX_PROPERTIES as nat, count_field);
}

/// Appends a map.
#[verifier::loop_isolation(false)]
pub fn put_map<T: WireRecord>(
    out: &mut Vec<u8>,
    map: &TextMap<T>,
    size_field: &'static str,
    key_field: &'static str,
) -> (outcome: Result<(), ProtocolError>)
    ensures
        emitted(
            outcome,
            emit_map::<T>(Emit::Bytes(old(out)@), map.deep_view(), size_field, key_field),
            final(out)@,
        ),
{
    let ghost model = map.deep_view();
    let n: usize = map.len();
    if n > MAX_PROPERTIES {
        proof {
            lemma_entries_fault_stays::<T>(Seq::empty(), model, key_field, key_field);
        }
        return Err(ProtocolError::InvalidField(size_field));
    }
    put_u32(out, n as u32);
    let ghost start = Emit::Bytes(out@);
    let mut i: usize = 0;
    assert(model.take(0).len() == 0);
    while i < n
        invariant
            i <= n == model.len(),
            model == map.deep_view(),
            emit_entries::<T>(start, model.take(i as int), key_field) == Emit::Bytes(out@),
        decreases n - i,
    {
        let ghost last = model[i as int];
        proof {
            assert(model.take(i + 1).drop_last() =~= model.take(i as int));
            assert(model.take(i + 1).last() == last);
        }
        if let Err(e) = put_string(out, map.key_at(i).as_str(), MAX_KEY_BYTES, key_field) {
            proof {
                T::faults_stay(Seq::empty(), last.1);
                lemma_emit_entries_fault::<T>(
                    model,
                    i + 1,
                    start,
                    key_field,
                    Emit::Fault(e, out@),
                );
            }
            return Err(e);
        }
        if let Err(e) = map.value_at(i).put(out) {
            proof {
                lemma_emit_entries_fault::<T>(
                    model,
                    i + 1,
                    start,
                    key_field,
                    Emit::Fault(e, out@),
                );
            }
            return Err(e);
        }
        i = i + 1;
    }
    assert(model.take(n as int) =~= model);
    Ok(())
}

/// Reads a map.
#[verifier::loop_isolation(false)]
pub fn take_map<'a, T: WireRecord>(
    input: &mut Input<'a>,
    count_field: &'static str,
    key_field: &'static str,
    order_field: &'static str,
) -> (outcome: Result<TextMap<T>, ProtocolError>)
    requires
        old(input).ok(),
    ensures
        final(input).ok(),
        final(input).data() == old(input).data(),
        scanned(
            outcome,
            scan_map::<T>(
                old(input).data(),
                old(input).scan(),
                count_field,
                key_field,
                order_field,
            ),
            final(input).scan(),
        ),
{
    let ghost b = input.data();
    let n: usize = match input.count(MAX_PROPERTIES, count_field) {
        Ok(n) => n,
        Err(e) => {
            proof {
                lemma_entries_fault_stays::<T>(b, Seq::empty(), key_field, order_field);
            }
            return Err(e);
        },
    };
    let ghost start = input.scan();
    let mut map: TextMap<T> = TextMap::new();
    let mut i: usize = 0;
    while i < n
        invariant
            i <= n,
            input.ok(),
            input.data() == b,
            scan_entries::<T>(b, start, i as nat, key_field, order_field) == (
                map.deep_view(),
                input.scan(),
            ),
            map.deep_view().len() == i,
        decreases n - i,
    {
        let key: String = match input.string(MAX_KEY_BYTES, key_field) {
            Ok(key) => key,
            Err(e) => {
                proof {
                    T::faults_stay(b, arbitrary());
                    lemma_scan_entries_fault::<T>(
                        b,
                        start,
                        (i + 1) as nat,
                        n as nat,
                        key_field,
                        order_field,
                        e,
                    );
                }
                return Err(e);
            },
        };
        if i > 0 && !is_text_less(map.key_at(i - 1).as_str(), key.as_str()) {
            proof {
                let e = ProtocolError::InvalidField(order_field);
                T::faults_stay(b, arbitrary());
                lemma_scan_entries_fault::<T>(
                    b,
                    start,
                    (i + 1) as nat,
                    n as nat,
                    key_field,
                    order_field,
                    e,
                );
            }
            return Err(ProtocolError::InvalidField(order_field));
        }
        match T::take(input) {
            Ok(value) => {
                map.push_last(key, value);
            },
            Err(e) => {
                proof {
                    lemma_scan_entries_fault::<T>(
                        b,
                        start,
                        (i + 1) as nat,
                        n as nat,
                        key_field,
                        order_field,
                        e,
                    );
                }
                return Err(e);
            },
        }
        i = i + 1;
    }
    Ok(map)
}

// Identifiers that may be absent.

pub open spec fn entity_number(id: Option<EntityId>) -> Option<u128> {
    match id {
        Some(id) => Some(id.0),
        None => None,
    }
}

pub open spec fn entity_of(number: Option<u128>) -> Option<EntityId> {
    match number {
        Some(n) => Some(EntityId(n)),
        None => None,
    }
}

fn number_of_entity(id: Option<EntityId>) -> (number: Option<u128>)
    ensures
        number == entity_number(id),
{
    match id {
        Some(id) => Some(id.0),
        None => None,
    }
}

fn entity_from(number: Option<u128>) -> (id: Option<EntityId>)
    ensures
        id == entity_of(number),
{
    match number {
        Some(n) => Some(EntityId(n)),
        None => None,
    }
}

pub open spec fn relation_number(id: Option<RelationId>) -> Option<u128> {
    match id {
        Some(id) => Some(id.0),
        None => None,
    }
}

pub open spec fn relation_of(number: Option<u128>) -> Option<RelationId> {
    match number {
        Some(n) => Some(RelationId(n)),
        None => None,
    }
}

fn number_of_relation(id: Option<RelationId>) -> (number: Option<u128>)
    ensures
        number == relation_number(id),
{
    match id {
        Some(id) => Some(id.0),
        None => None,
    }
}

fn relation_from(number: Option<u128>) -> (id: Option<RelationId>)
    ensures
        id == relation_of(number),
{
    match number {
        Some(n) => Some(RelationId(n)),
        None => None,
    }
}

pub open spec fn run_number(id: Option<RunId>) -> Option<u128> {
    match id {
        Some(id) => Some(id.0),
        None => None,
    }
}

pub open spec fn run_of(number: Option<u128>) -> Option<RunId> {
    match number {
        Some(n) => Some(RunId(n)),
        None => None,
    }
}

fn number_of_run(id: Option<RunId>) -> (number: Option<u128>)
    ensures
        number == run_number(id),
{
    match id {
        Some(id) => Some(id.0),
        None => None,
    }
}

fn run_from(number: Option<u128>) -> (id: Option<RunId>)
    ensures
        id == run_of(number),
{
    match number {
        Some(n) => Some(RunId(n)),
        None => None,
    }
}

// One-byte tags of the enums.

pub open spec fn series_semantics_tag(v: SeriesSemantics) -> u8 {
    match v {
        SeriesSemantics::Gauge => 1,
        SeriesSemantics::IntervalTotal => 2,
        SeriesSemantics::Counter => 3,
        SeriesSemantics::State => 4,
        SeriesSemantics::Event => 5,
    }
}

pub open spec fn series_semantics_of(tag: u8) -> Option<SeriesSemantics> {
    match tag {
        1 => Some(SeriesSemantics::Gauge),
        2 => Some(SeriesSemantics::IntervalTotal),
        3 => Some(SeriesSemantics::Counter),
        4 => Some(SeriesSemantics::State),
        5 => Some(SeriesSemantics::Event),
        _ => None,
    }
}

pub open spec fn scan_series_semantics(b: Seq<u8>, s: Scan) -> (SeriesSemantics, Scan) {
    let (tag, s) = scan_u8(b, s);
    (
        series_semantics_of(tag)->0,
        scan_check(
            s,
            if series_semantics_of(tag) is Some {
                None
            } else {
                Some(ProtocolError::InvalidEnumValue { field: "series semantics", value: tag })
            },
        ),
    )
}

pub fn series_semantics_byte(v: SeriesSemantics) -> (tag: u8)
    ensures
        tag == series_semantics_tag(v),
        series_semantics_of(tag) == Some(v),
{
    match v {
        SeriesSemantics::Gauge => 1,
        SeriesSemantics::IntervalTotal => 2,
        SeriesSemantics::Counter => 3,
        SeriesSemantics::State => 4,
        SeriesSemantics::Event => 5,
    }
}

pub fn series_semantics_from(tag: u8) -> (v: Result<SeriesSemantics, ProtocolError>)
    ensures
        v == match series_semantics_of(tag) {
            Some(v) => Ok::<SeriesSemantics, ProtocolError>(v),
            None => Err(ProtocolError::InvalidEnumValue { field: "series semantics", value: tag }),
        },
{
    match tag {
        1 => Ok(SeriesSemantics::Gauge),
        2 => Ok(SeriesSemantics::IntervalTotal),
        3 => Ok(SeriesSemantics::Counter),
        4 => Ok(SeriesSemantics::State),
        5 => Ok(SeriesSemantics::Event),
        value => Err(ProtocolError::InvalidEnumValue { field: "series semantics", value }),
    }
}

pub open spec fn calendar_unit_tag(v: CalendarUnit) -> u8 {
    match v {
        CalendarUnit::Day => 1,
        CalendarUnit::Month => 2,
        CalendarUnit::Year => 3,
    }
}

pub open spec fn calendar_unit_of(tag: u8) -> Option<CalendarUnit> {
    match tag {
        1 => Some(CalendarUnit::Day),
        2 => Some(CalendarUnit::Month),
        3 => Some(CalendarUnit::Year),
        _ => None,
    }
}

pub open spec fn scan_calendar_unit(b: Seq<u8>, s: Scan) -> (CalendarUnit, Scan) {
    let (tag, s) = scan_u8(b, s);
    (
        calendar_unit_of(tag)->0,
        scan_check(
            s,
            if calendar_unit_of(tag) is Some {
                None
            } else {
                Some(ProtocolError::InvalidEnumValue { field: "calendar unit", value: tag })
            },
        ),
    )
}

pub fn calendar_unit_byte(v: CalendarUnit) -> (tag: u8)
    ensures
        tag == calendar_unit_tag(v),
        calendar_unit_of(tag) == Some(v),
{
    match v {
        CalendarUnit::Day => 1,
        CalendarUnit::Month => 2,
        CalendarUnit::Year => 3,
    }
}

pub fn calendar_unit_from(tag: u8) -> (v: Result<CalendarUnit, ProtocolError>)
    ensures
        v == match calendar_unit_of(tag) {
            Some(v) => Ok::<CalendarUnit, ProtocolError>(v),
            None => Err(ProtocolError::InvalidEnumValue { field: "calendar unit", value: tag }),
        },
{
    match tag {
        1 => Ok(CalendarUnit::Day),
        2 => Ok(CalendarUnit::Month),
        3 => Ok(CalendarUnit::Year),
        value => Err(ProtocolError::InvalidEnumValue { field: "calendar unit", value }),
    }
}

pub open spec fn run_kind_tag(v: RunKind) -> u8 {
    match v {
        RunKind::Forecast => 1,
        RunKind::Optimization => 2,
        RunKind::Import => 3,
        RunKind::Control => 4,
        RunKind::Reconciliation => 5,
    }
}

pub open spec fn run_kind_of(tag: u8) -> Option<RunKind> {
    match tag {
        1 => Some(RunKind::Forecast),
        2 => Some(RunKind::Optimization),
        3 => Some(RunKind::Import),
        4 => Some(RunKind::Control),
        5 => Some(RunKind::Reconciliation),
        _ => None,
    }
}

pub open spec fn scan_run_kind(b: Seq<u8>, s: Scan) -> (RunKind, Scan) {
    let (tag, s) = scan_u8(b, s);
    (
        run_kind_of(tag)->0,
        scan_check(
            s,
            if run_kind_of(tag) is Some {
                None
            } else {
                Some(ProtocolError::InvalidEnumValue { field: "run kind", value: tag })
            },
        ),
    )
}

pub fn run_kind_byte(v: RunKind) -> (tag: u8)
    ensures
        tag == run_kind_tag(v),
        run_kind_of(tag) == Some(v),
{
    match v {
        RunKind::Forecast => 1,
        RunKind::Optimization => 2,
        RunKind::Import => 3,
        RunKind::Control => 4,
        RunKind::Reconciliation => 5,
    }
}

pub fn run_kind_from(tag: u8) -> (v: Result<RunKind, ProtocolError>)
    ensures
        v == match run_kind_of(tag) {
            Some(v) => Ok::<RunKind, ProtocolError>(v),
            None => Err(ProtocolError::InvalidEnumValue { field: "run kind", value: tag }),
        },
{
    match tag {
        1 => Ok(RunKind::Forecast),
        2 => Ok(RunKind::Optimization),
        3 => Ok(RunKind::Import),
        4 => Ok(RunKind::Control),
        5 => Ok(RunKind::Reconciliation),
        value => Err(ProtocolError::InvalidEnumValue { field: "run kind", value }),
    }
}

pub open spec fn run_status_tag(v: RunStatus) -> u8 {
    match v {
        RunStatus::Pending => 1,
        RunStatus::Running => 2,
        RunStatus::Succeeded => 3,
        RunStatus::Failed => 4,
        RunStatus::Cancelled => 5,
    }
}

pub open spec fn run_status_of(tag: u8) -> Option<RunStatus> {
    match tag {
        1 => Some(RunStatus::Pending),
        2 => Some(RunStatus::Running),
        3 => Some(RunStatus::Succeeded),
        4 => Some(RunStatus::Failed),
        5 => Some(RunStatus::Cancelled),
        _ => None,
    }
}

pub open spec fn scan_run_status(b: Seq<u8>, s: Scan) -> (RunStatus, Scan) {
    let (tag, s) = scan_u8(b, s);
    (
        run_status_of(tag)->0,
        scan_check(
            s,
            if run_status_of(tag) is Some {
                None
            } else {
                Some(ProtocolError::InvalidEnumValue { field: "run status", value: tag })
            },
        ),
    )
}

pub fn run_status_byte(v: RunStatus) -> (tag: u8)
    ensures
        tag == run_status_tag(v),
        run_status_of(tag) == Some(v),
{
    match v {
        RunStatus::Pending => 1,
        RunStatus::Running => 2,
        RunStatus::Succeeded => 3,
        RunStatus::Failed => 4,
        RunStatus::Cancelled => 5,
    }
}

pub fn run_status_from(tag: u8) -> (v: Result<RunStatus, ProtocolError>)
    ensures
        v == match run_status_of(tag) {
            Some(v) => Ok::<RunStatus, ProtocolError>(v),
            None => Err(ProtocolError::InvalidEnumValue { field: "run status", value: tag }),
        },
{
    match tag {
        1 => Ok(RunStatus::Pending),
        2 => Ok(RunStatus::Running),
        3 => Ok(RunStatus::Succeeded),
        4 => Ok(RunStatus::Failed),
        5 => Ok(RunStatus::Cancelled),
        value => Err(ProtocolError::InvalidEnumValue { field: "run status", value }),
    }
}

pub open spec fn plan_status_tag(v: PlanStatus) -> u8 {
    match v {
        PlanStatus::Candidate => 1,
        PlanStatus::Approved => 2,
        PlanStatus::Deployed => 3,
        PlanStatus::Superseded => 4,
        PlanStatus::Cancelled => 5,
    }
}

pub open spec fn plan_status_of(tag: u8) -> Option<PlanStatus> {
    match tag {
        1 => Some(PlanStatus::Candidate),
        2 => Some(PlanStatus::Approved),
        3 => Some(PlanStatus::Deployed),
        4 => Some(PlanStatus::Superseded),
        5 => Some(PlanStatus::Cancelled),
        _ => None,
    }
}

pub open spec fn scan_plan_status(b: Seq<u8>, s: Scan) -> (PlanStatus, Scan) {
    let (tag, s) = scan_u8(b, s);
    (
        plan_status_of(tag)->0,
        scan_check(
            s,
            if plan_status_of(tag) is Some {
                None
            } else {
                Some(ProtocolError::InvalidEnumValue { field: "plan status", value: tag })
            },
        ),
    )
}

pub fn plan_status_byte(v: PlanStatus) -> (tag: u8)
    ensures
        tag == plan_status_tag(v),
        plan_status_of(tag) == Some(v),
{
    match v {
        PlanStatus::Candidate => 1,
        PlanStatus::Approved => 2,
        PlanStatus::Deployed => 3,
        PlanStatus::Superseded => 4,
        PlanStatus::Cancelled => 5,
    }
}

pub fn plan_status_from(tag: u8) -> (v: Result<PlanStatus, ProtocolError>)
    ensures
        v == match plan_status_of(tag) {
            Some(v) => Ok::<PlanStatus, ProtocolError>(v),
            None => Err(ProtocolError::InvalidEnumValue { field: "plan status", value: tag }),
        },
{
    match tag {
        1 => Ok(PlanStatus::Candidate),
        2 => Ok(PlanStatus::Approved),
        3 => Ok(PlanStatus::Deployed),
        4 => Ok(PlanStatus::Superseded),
        5 => Ok(PlanStatus::Cancelled),
        value => Err(ProtocolError::InvalidEnumValue { field: "plan status", value }),
    }
}

impl WireRecord for PropertyValue {
    open spec fn emit(s: Emit, v: PropertyModel) -> Emit {
        match v {
            PropertyModel::Null => emit_u8(s, 0),
            PropertyModel::Bool(v) => emit_bool(emit_u8(s, 1), v),
            PropertyModel::Integer(v) => emit_i64(emit_u8(s, 2), v),
            PropertyModel::Float(v) => emit_float(emit_u8(s, 3), v, "property float"),
            PropertyModel::Text(v) => emit_text(
                emit_u8(s, 4),
                v,
                MAX_TEXT_BYTES as nat,
                "property text",
            ),
        }
    }

    open spec fn scan(b: Seq<u8>, s: Scan) -> (PropertyModel, Scan) {
        let (tag, s) = scan_u8(b, s);
        if tag == 0 {
            (PropertyModel::Null, s)
        } else if tag == 1 {
            let (v, s) = scan_bool(b, s, "property bool");
            (PropertyModel::Bool(v), s)
        } else if tag == 2 {
            let (v, s) = scan_i64(b, s);
            (PropertyModel::Integer(v), s)
        } else if tag == 3 {
            let (v, s) = scan_float(b, s, "property float");
            (PropertyModel::Float(v), s)
        } else if tag == 4 {
            let (v, s) = scan_text(b, s, MAX_TEXT_BYTES as nat, "property text");
            (PropertyModel::Text(v), s)
        } else {
            (
                PropertyModel::Null,
                scan_check(
                    s,
                    Some(
                        ProtocolError::InvalidEnumValue { field: "property value", value: tag },
                    ),
                ),
            )
        }
    }

    open spec fn ordered(v: PropertyModel) -> bool {
        true
    }

    fn put(&self, out: &mut Vec<u8>) -> (outcome: Result<(), ProtocolError>) {
        match self {
            PropertyValue::Null => {
                put_u8(out, 0);
                Ok(())
            },
            PropertyValue::Bool(v) => {
                put_u8(out, 1);
                put_bool(out, *v);
                Ok(())
            },
            PropertyValue::Integer(v) => {
                put_u8(out, 2);
                put_i64(out, *v);
                Ok(())
            },
            PropertyValue::Float(v) => {
                put_u8(out, 3);
                put_float(out, *v, "property float")
            },
            PropertyValue::Text(v) => {
                put_u8(out, 4);
                put_text(out, v.as_str(), MAX_TEXT_BYTES, "property text")
            },
        }
    }

    fn take<'a>(input: &mut Input<'a>) -> (outcome: Result<Self, ProtocolError>) {
        let tag: u8 = input.u8()?;
        match tag {
            0 => Ok(PropertyValue::Null),
            1 => {
                let v: bool = input.boolean("property bool")?;
                Ok(PropertyValue::Bool(v))
            },
            2 => {
                let v: i64 = input.i64()?;
                Ok(PropertyValue::Integer(v))
            },
            3 => {
                let v: FloatBits = input.float("property float")?;
                Ok(PropertyValue::Float(v))
            },
            4 => {
                let v: String = input.text(MAX_TEXT_BYTES, "property text")?;
                Ok(PropertyValue::Text(v))
            },
            value => Err(ProtocolError::InvalidEnumValue { field: "property value", value }),
        }
    }

    proof fn faults_stay(b: Seq<u8>, v: PropertyModel) {
    }

    proof fn read_back(p: Seq<u8>, v: PropertyModel, q: Seq<u8>, b: Seq<u8>) {
        match v {
            PropertyModel::Null => {
                lemma_u8(p, 0, q, b);
            },
            PropertyModel::Bool(v) => {
                let m = emit_u8(Emit::Bytes(p), 1)->Bytes_0;
                lemma_bool(m, v, q, b, "property bool");
                lemma_u8(p, 1, m, b);
            },
            PropertyModel::Integer(v) => {
                let m = emit_u8(Emit::Bytes(p), 2)->Bytes_0;
                lemma_i64(m, v, q, b);
                lemma_u8(p, 2, m, b);
            },
            PropertyModel::Float(v) => {
                let m = emit_u8(Emit::Bytes(p), 3)->Bytes_0;
                lemma_float(m, v, q, b, "property float");
                lemma_u8(p, 3, m, b);
            },
            PropertyModel::Text(v) => {
                let m = emit_u8(Emit::Bytes(p), 4)->Bytes_0;
                lemma_text(m, v, q, b, MAX_TEXT_BYTES as nat, "property text");
                lemma_u8(p, 4, m, b);
            },
        }
    }
}

/// The weight of an objective term.
impl WireRecord for FloatBits {
    open spec fn emit(s: Emit, v: FloatBits) -> Emit {
        emit_float(s, v, "objective value")
    }

    open spec fn scan(b: Seq<u8>, s: Scan) -> (FloatBits, Scan) {
        scan_float(b, s, "objective value")
    }

    open spec fn ordered(v: FloatBits) -> bool {
        true
    }

    fn put(&self, out: &mut Vec<u8>) -> (outcome: Result<(), ProtocolError>) {
        put_float(out, *self, "objective value")
    }

    fn take<'a>(input: &mut Input<'a>) -> (outcome: Result<Self, ProtocolError>) {
        input.float("objective value")
    }

    proof fn faults_stay(b: Seq<u8>, v: FloatBits) {
    }

    proof fn read_back(p: Seq<u8>, v: FloatBits, q: Seq<u8>, b: Seq<u8>) {
        lemma_float(p, v, q, b, "objective value");
    }
}

impl WireRecord for Entity {
    open spec fn emit(s: Emit, v: EntityModel) -> Emit {
        let s = emit_be(s, v.id.0 as nat, 16);
        let s = emit_string(s, v.kind, MAX_KEY_BYTES as nat, "entity kind");
        let s = emit_string(s, v.name, MAX_TEXT_BYTES as nat, "entity name");
        let s = emit_option_u128(s, entity_number(v.parent));
        let s = emit_i64(s, v.valid_from);
        let s = emit_option_i64(s, v.valid_to);
        emit_map::<PropertyValue>(s, v.properties, "too many properties", "property key")
    }

    open spec fn scan(b: Seq<u8>, s: Scan) -> (EntityModel, Scan) {
        let (id, s) = scan_u128(b, s);
        let (kind, s) = scan_string(b, s, MAX_KEY_BYTES as nat, "entity kind");
        let (name, s) = scan_string(b, s, MAX_TEXT_BYTES as nat, "entity name");
        let (parent, s) = scan_option_u128(b, s, "entity parent");
        let (valid_from, s) = scan_i64(b, s);
        let (valid_to, s) = scan_option_i64(b, s, "entity valid_to");
        let (properties, s) = scan_map::<PropertyValue>(b, s, "property count", "property key", "property keys");
        let v = EntityModel {
            id: EntityId(id),
            kind,
            name,
            parent: entity_of(parent),
            valid_from,
            valid_to,
            properties,
        };
        (v, s)
    }

    open spec fn ordered(v: EntityModel) -> bool {
        keys_ascend(v.properties)
    }

    #[verifier::spinoff_prover]
    fn put(&self, out: &mut Vec<u8>) -> (outcome: Result<(), ProtocolError>) {
        let ghost v = self.deep_view();
        proof {
            lemma_map_faults_stay::<PropertyValue>(Seq::empty(), v.properties, "too many properties", "property count", "property key", "property keys");
        }
        put_u128(out, self.id.0);
        if let Err(e) = put_string(out, self.kind.as_str(), MAX_KEY_BYTES, "entity kind") {
            return Err(e);
        }
        if let Err(e) = put_string(out, self.name.as_str(), MAX_TEXT_BYTES, "entity name") {
            return Err(e);
        }
        put_option_u128(out, number_of_entity(self.parent));
        put_i64(out, self.valid_from);
        put_option_i64(out, self.valid_to);
        put_map(out, &self.properties, "too many properties", "property key")
    }

    #[verifier::spinoff_prover]
    fn take<'a>(input: &mut Input<'a>) -> (outcome: Result<Self, ProtocolError>) {
        proof {
            lemma_map_faults_stay::<PropertyValue>(input.data(), arbitrary(), "too many properties", "property count", "property key", "property keys");
        }
        let id: u128 = input.u128()?;
        let kind: String = input.string(MAX_KEY_BYTES, "entity kind")?;
        let name: String = input.string(MAX_TEXT_BYTES, "entity name")?;
        let parent: Option<u128> = input.option_u128("entity parent")?;
        let valid_from: i64 = input.i64()?;
        let valid_to: Option<i64> = input.option_i64("entity valid_to")?;
        let properties: Properties = take_map(input, "property count", "property key", "property keys")?;
        let record = Entity {
            id: EntityId(id),
            kind,
            name,
            parent: entity_from(parent),
            valid_from,
            valid_to,
            properties,
        };
        Ok(record)
    }

    proof fn faults_stay(b: Seq<u8>, v: EntityModel) {
        lemma_map_faults_stay::<PropertyValue>(b, v.properties, "too many properties", "property count", "property key", "property keys");
    }

    #[verifier::spinoff_prover]
    proof fn read_back(p: Seq<u8>, v: EntityModel, q: Seq<u8>, b: Seq<u8>) {
        lemma_map_faults_stay::<PropertyValue>(b, v.properties, "too many properties", "property count", "property key", "property keys");
        let s0 = Emit::Bytes(p);
        let s1 = emit_be(s0, v.id.0 as nat, 16);
        let s2 = emit_string(s1, v.kind, MAX_KEY_BYTES as nat, "entity kind");
        let s3 = emit_string(s2, v.name, MAX_TEXT_BYTES as nat, "entity name");
        let s4 = emit_option_u128(s3, entity_number(v.parent));
        let s5 = emit_i64(s4, v.valid_from);
        let s6 = emit_option_i64(s5, v.valid_to);
        let s7 = emit_map::<PropertyValue>(s6, v.properties, "too many properties", "property key");
        lemma_map_read_back::<PropertyValue>(s6->Bytes_0, v.properties, q, b, "too many properties", "property count", "property key", "property keys");
        lemma_option_i64(s5->Bytes_0, v.valid_to, s6->Bytes_0, b, "entity valid_to");
        lemma_i64(s4->Bytes_0, v.valid_from, s5->Bytes_0, b);
        lemma_option_u128(s3->Bytes_0, entity_number(v.parent), s4->Bytes_0, b, "entity parent");
        lemma_string(s2->Bytes_0, v.name, s3->Bytes_0, b, MAX_TEXT_BYTES as nat, "entity name");
        lemma_string(s1->Bytes_0, v.kind, s2->Bytes_0, b, MAX_KEY_BYTES as nat, "entity kind");
        lemma_u128(p, v.id.0, s1->Bytes_0, b);
    }
}

impl WireRecord for Relation {
    open spec fn emit(s: Emit, v: RelationModel) -> Emit {
        let s = emit_be(s, v.id.0 as nat, 16);
        let s = emit_string(s, v.kind, MAX_KEY_BYTES as nat, "relation kind");
        let s = emit_be(s, v.source.0 as nat, 16);
        let s = emit_be(s, v.target.0 as nat, 16);
        let s = emit_i64(s, v.valid_from);
        let s = emit_option_i64(s, v.valid_to);
        emit_map::<PropertyValue>(s, v.properties, "too many properties", "property key")
    }

    open spec fn scan(b: Seq<u8>, s: Scan) -> (RelationModel, Scan) {
        let (id, s) = scan_u128(b, s);
        let (kind, s) = scan_string(b, s, MAX_KEY_BYTES as nat, "relation kind");
        let (source, s) = scan_u128(b, s);
        let (target, s) = scan_u128(b, s);
        let (valid_from, s) = scan_i64(b, s);
        let (valid_to, s) = scan_option_i64(b, s, "relation valid_to");
        let (properties, s) = scan_map::<PropertyValue>(b, s, "property count", "property key", "property keys");
        let v = RelationModel {
            id: RelationId(id),
            kind,
            source: EntityId(source),
            target: EntityId(target),
            valid_from,
            valid_to,
            properties,
        };
        (v, s)
    }

    open spec fn ordered(v: RelationModel) -> bool {
        keys_ascend(v.properties)
    }

    #[verifier::spinoff_prover]
    fn put(&self, out: &mut Vec<u8>) -> (outcome: Result<(), ProtocolError>) {
        let ghost v = self.deep_view();
        proof {
            lemma_map_faults_stay::<PropertyValue>(Seq::empty(), v.properties, "too many properties", "property count", "property key", "property keys");
        }
        put_u128(out, self.id.0);
        if let Err(e) = put_string(out, self.kind.as_str(), MAX_KEY_BYTES, "relation kind") {
            return Err(e);
        }
        put_u128(out, self.source.0);
        put_u128(out, self.target.0);
        put_i64(out, self.valid_from);
        put_option_i64(out, self.valid_to);
        put_map(out, &self.properties, "too many properties", "property key")
    }

    #[verifier::spinoff_prover]
    fn take<'a>(input: &mut Input<'a>) -> (outcome: Result<Self, ProtocolError>) {
        proof {
            lemma_map_faults_stay::<PropertyValue>(input.data(), arbitrary(), "too many properties", "property count", "property key", "property keys");
        }
        let id: u128 = input.u128()?;
        let kind: String = input.string(MAX_KEY_BYTES, "relation kind")?;
        let source: u128 = input.u128()?;
        let target: u128 = input.u128()?;
        let valid_from: i64 = input.i64()?;
        let valid_to: Option<i64> = input.option_i64("relation valid_to")?;
        let properties: Properties = take_map(input, "property count", "property key", "property keys")?;
        let record = Relation {
            id: RelationId(id),
            kind,
            source: EntityId(source),
            target: EntityId(target),
            valid_from,
            valid_to,
            properties,
        };
        Ok(record)
    }

    proof fn faults_stay(b: Seq<u8>, v: RelationModel) {
        lemma_map_faults_stay::<PropertyValue>(b, v.properties, "too many properties", "property count", "property key", "property keys");
    }

    #[verifier::spinoff_prover]
    proof fn read_back(p: Seq<u8>, v: RelationModel, q: Seq<u8>, b: Seq<u8>) {
        lemma_map_faults_stay::<PropertyValue>(b, v.properties, "too many properties", "property count", "property key", "property keys");
        let s0 = Emit::Bytes(p);
        let s1 = emit_be(s0, v.id.0 as nat, 16);
        let s2 = emit_string(s1, v.kind, MAX_KEY_BYTES as nat, "relation kind");
        let s3 = emit_be(s2, v.source.0 as nat, 16);
        let s4 = emit_be(s3, v.target.0 as nat, 16);
        let s5 = emit_i64(s4, v.valid_from);
        let s6 = emit_option_i64(s5, v.valid_to);
        let s7 = emit_map::<PropertyValue>(s6, v.properties, "too many properties", "property key");
        lemma_map_read_back::<PropertyValue>(s6->Bytes_0, v.properties, q, b, "too many properties", "property count", "property key", "property keys");
        lemma_option_i64(s5->Bytes_0, v.valid_to, s6->Bytes_0, b, "relation valid_to");
        lemma_i64(s4->Bytes_0, v.valid_from, s5->Bytes_0, b);
        lemma_u128(s3->Bytes_0, v.target.0, s4->Bytes_0, b);
        lemma_u128(s2->Bytes_0, v.source.0, s3->Bytes_0, b);
        lemma_string(s1->Bytes_0, v.kind, s2->Bytes_0, b, MAX_KEY_BYTES as nat, "relation kind");
        lemma_u128(p, v.id.0, s1->Bytes_0, b);
    }
}

impl WireRecord for RollupTier {
    open spec fn emit(s: Emit, v: TierModel) -> Emit {
        let s = match v.resolution {
            ResolutionModel::FixedMicros(micros) => emit_i64(emit_u8(s, 1), micros),
            ResolutionModel::Calendar { unit, iana_timezone } => emit_string(
                emit_u8(emit_u8(s, 2), calendar_unit_tag(unit)),
                iana_timezone,
                MAX_KEY_BYTES as nat,
                "IANA timezone",
            ),
        };
        emit_option_i64(s, v.retain_for_micros)
    }

    open spec fn scan(b: Seq<u8>, s: Scan) -> (TierModel, Scan) {
        let (tag, s) = scan_u8(b, s);
        let (resolution, s) = if tag == 1 {
            let (micros, s) = scan_i64(b, s);
            (ResolutionModel::FixedMicros(micros), s)
        } else if tag == 2 {
            let (unit, s) = scan_calendar_unit(b, s);
            let (iana_timezone, s) = scan_string(b, s, MAX_KEY_BYTES as nat, "IANA timezone");
            (ResolutionModel::Calendar { unit, iana_timezone }, s)
        } else {
            (
                ResolutionModel::FixedMicros(0),
                scan_check(
                    s,
                    Some(
                        ProtocolError::InvalidEnumValue { field: "rollup resolution", value: tag },
                    ),
                ),
            )
        };
        let (retain_for_micros, s) = scan_option_i64(b, s, "tier retention");
        (TierModel { resolution, retain_for_micros }, s)
    }

    open spec fn ordered(v: TierModel) -> bool {
        true
    }

    fn put(&self, out: &mut Vec<u8>) -> (outcome: Result<(), ProtocolError>) {
        match &self.resolution {
            RollupResolution::FixedMicros(micros) => {
                put_u8(out, 1);
                put_i64(out, *micros);
            },
            RollupResolution::Calendar { unit, iana_timezone } => {
                put_u8(out, 2);
                put_u8(out, calendar_unit_byte(*unit));
                if let Err(e) = put_string(
                    out,
                    iana_timezone.as_str(),
                    MAX_KEY_BYTES,
                    "IANA timezone",
                ) {
                    return Err(e);
                }
            },
        }
        put_option_i64(out, self.retain_for_micros);
        Ok(())
    }

    fn take<'a>(input: &mut Input<'a>) -> (outcome: Result<Self, ProtocolError>) {
        let tag: u8 = input.u8()?;
        let resolution = match tag {
            1 => {
                let micros: i64 = input.i64()?;
                RollupResolution::FixedMicros(micros)
            },
            2 => {
                let unit: CalendarUnit = calendar_unit_from(input.u8()?)?;
                let iana_timezone: String = input.string(MAX_KEY_BYTES, "IANA timezone")?;
                RollupResolution::Calendar { unit, iana_timezone }
            },
            value => {
                return Err(
                    ProtocolError::InvalidEnumValue { field: "rollup resolution", value },
                );
            },
        };
        let retain_for_micros: Option<i64> = input.option_i64("tier retention")?;
        Ok(RollupTier { resolution, retain_for_micros })
    }

    proof fn faults_stay(b: Seq<u8>, v: TierModel) {
    }

    proof fn read_back(p: Seq<u8>, v: TierModel, q: Seq<u8>, b: Seq<u8>) {
        let s0 = Emit::Bytes(p);
        match v.resolution {
            ResolutionModel::FixedMicros(micros) => {
                let s1 = emit_u8(s0, 1);
                let s2 = emit_i64(s1, micros);
                lemma_option_i64(s2->Bytes_0, v.retain_for_micros, q, b, "tier retention");
                lemma_i64(s1->Bytes_0, micros, s2->Bytes_0, b);
                lemma_u8(p, 1, s1->Bytes_0, b);
            },
            ResolutionModel::Calendar { unit, iana_timezone } => {
                let s1 = emit_u8(s0, 2);
                let s2 = emit_u8(s1, calendar_unit_tag(unit));
                let s3 = emit_string(s2, iana_timezone, MAX_KEY_BYTES as nat, "IANA timezone");
                lemma_option_i64(s3->Bytes_0, v.retain_for_micros, q, b, "tier retention");
                lemma_string(
                    s2->Bytes_0,
                    iana_timezone,
                    s3->Bytes_0,
                    b,
                    MAX_KEY_BYTES as nat,
                    "IANA timezone",
                );
                lemma_u8(s1->Bytes_0, calendar_unit_tag(unit), s2->Bytes_0, b);
                lemma_u8(p, 2, s1->Bytes_0, b);
            },
        }
    }
}

impl WireRecord for RollupPolicy {
    open spec fn emit(s: Emit, v: PolicyModel) -> Emit {
        let s = emit_check(s, unless(v.tiers.len() <= MAX_ROLLUP_TIERS, "too many rollup tiers"));
        let s = emit_option_i64(s, v.raw_retain_for_micros);
        let s = emit_be(s, v.tiers.len(), 4);
        emit_all::<RollupTier>(s, v.tiers)
    }

    open spec fn scan(b: Seq<u8>, s: Scan) -> (PolicyModel, Scan) {
        let (raw_retain_for_micros, s) = scan_option_i64(b, s, "raw retention");
        let (n, s) = scan_count(b, s, MAX_ROLLUP_TIERS as nat, "rollup tier count");
        let (tiers, s) = scan_all::<RollupTier>(b, s, n);
        (PolicyModel { raw_retain_for_micros, tiers }, s)
    }

    open spec fn ordered(v: PolicyModel) -> bool {
        true
    }

    fn put(&self, out: &mut Vec<u8>) -> (outcome: Result<(), ProtocolError>) {
        if self.tiers.len() > MAX_ROLLUP_TIERS {
            proof {
                lemma_all_faults_stay::<RollupTier>(Seq::empty(), self.tiers.deep_view());
            }
            return Err(ProtocolError::InvalidField("too many rollup tiers"));
        }
        put_option_i64(out, self.raw_retain_for_micros);
        put_u32(out, self.tiers.len() as u32);
        put_all(out, &self.tiers)
    }

    fn take<'a>(input: &mut Input<'a>) -> (outcome: Result<Self, ProtocolError>) {
        proof {
            lemma_all_faults_stay::<RollupTier>(input.data(), Seq::empty());
        }
        let raw_retain_for_micros: Option<i64> = input.option_i64("raw retention")?;
        let n: usize = input.count(MAX_ROLLUP_TIERS, "rollup tier count")?;
        let tiers: Vec<RollupTier> = take_all(input, n)?;
        Ok(RollupPolicy { raw_retain_for_micros, tiers })
    }

    proof fn faults_stay(b: Seq<u8>, v: PolicyModel) {
        lemma_all_faults_stay::<RollupTier>(b, v.tiers);
    }

    proof fn read_back(p: Seq<u8>, v: PolicyModel, q: Seq<u8>, b: Seq<u8>) {
        let s0 = emit_check(
            Emit::Bytes(p),
            unless(v.tiers.len() <= MAX_ROLLUP_TIERS, "too many rollup tiers"),
        );
        if v.tiers.len() > MAX_ROLLUP_TIERS {
            lemma_all_faults_stay::<RollupTier>(b, v.tiers);
        }
        let s1 = emit_option_i64(s0, v.raw_retain_for_micros);
        let s2 = emit_be(s1, v.tiers.len(), 4);
        lemma_all_read_back::<RollupTier>(s2->Bytes_0, v.tiers, q, b);
        lemma_count(
            s1->Bytes_0,
            v.tiers.len(),
            s2->Bytes_0,
            b,
            MAX_ROLLUP_TIERS as nat,
            "rollup tier count",
        );
        lemma_option_i64(p, v.raw_retain_for_micros, s1->Bytes_0, b, "raw retention");
    }
}

impl WireRecord for SeriesDefinition {
    open spec fn emit(s: Emit, v: SeriesModel) -> Emit {
        let s = emit_check(s, field_fault(series_fault(v)));
        let s = emit_be(s, v.id as nat, 8);
        let s = emit_option_u128(s, entity_number(v.owner_entity));
        let s = emit_option_u128(s, relation_number(v.owner_relation));
        let s = emit_string(s, v.name, MAX_KEY_BYTES as nat, "series name");
        let s = emit_string(s, v.physical_quantity, MAX_KEY_BYTES as nat, "physical quantity");
        let s = emit_string(s, v.canonical_unit, MAX_KEY_BYTES as nat, "canonical unit");
        let s = emit_u8(s, series_semantics_tag(v.semantics));
        let s = emit_option_i64(s, v.maximum_gap_micros);
        RollupPolicy::emit(s, v.rollup_policy)
    }

    open spec fn scan(b: Seq<u8>, s: Scan) -> (SeriesModel, Scan) {
        let (id, s) = scan_u64(b, s);
        let (owner_entity, s) = scan_option_u128(b, s, "owner entity");
        let (owner_relation, s) = scan_option_u128(b, s, "owner relation");
        let (name, s) = scan_string(b, s, MAX_KEY_BYTES as nat, "series name");
        let (physical_quantity, s) = scan_string(b, s, MAX_KEY_BYTES as nat, "physical quantity");
        let (canonical_unit, s) = scan_string(b, s, MAX_KEY_BYTES as nat, "canonical unit");
        let (semantics, s) = scan_series_semantics(b, s);
        let (maximum_gap_micros, s) = scan_option_i64(b, s, "maximum gap");
        let (rollup_policy, s) = RollupPolicy::scan(b, s);
        let v = SeriesModel {
            id,
            owner_entity: entity_of(owner_entity),
            owner_relation: relation_of(owner_relation),
            name,
            physical_quantity,
            canonical_unit,
            semantics,
            maximum_gap_micros,
            rollup_policy,
        };
        (v, scan_check(s, field_fault(series_fault(v))))
    }

    open spec fn ordered(v: SeriesModel) -> bool {
        true
    }

    #[verifier::spinoff_prover]
    fn put(&self, out: &mut Vec<u8>) -> (outcome: Result<(), ProtocolError>) {
        let ghost v = self.deep_view();
        proof {
            RollupPolicy::faults_stay(Seq::empty(), v.rollup_policy);
        }
        if let Err(reason) = self.validate() {
            return Err(ProtocolError::InvalidField(reason));
        }
        put_u64(out, self.id);
        put_option_u128(out, number_of_entity(self.owner_entity));
        put_option_u128(out, number_of_relation(self.owner_relation));
        if let Err(e) = put_string(out, self.name.as_str(), MAX_KEY_BYTES, "series name") {
            return Err(e);
        }
        if let Err(e) = put_string(out, self.physical_quantity.as_str(), MAX_KEY_BYTES, "physical quantity") {
            return Err(e);
        }
        if let Err(e) = put_string(out, self.canonical_unit.as_str(), MAX_KEY_BYTES, "canonical unit") {
            return Err(e);
        }
        put_u8(out, series_semantics_byte(self.semantics));
        put_option_i64(out, self.maximum_gap_micros);
        self.rollup_policy.put(out)
    }

    #[verifier::spinoff_prover]
    fn take<'a>(input: &mut Input<'a>) -> (outcome: Result<Self, ProtocolError>) {
        proof {
            RollupPolicy::faults_stay(input.data(), arbitrary());
        }
        let id: u64 = input.u64()?;
        let owner_entity: Option<u128> = input.option_u128("owner entity")?;
        let owner_relation: Option<u128> = input.option_u128("owner relation")?;
        let name: String = input.string(MAX_KEY_BYTES, "series name")?;
        let physical_quantity: String = input.string(MAX_KEY_BYTES, "physical quantity")?;
        let canonical_unit: String = input.string(MAX_KEY_BYTES, "canonical unit")?;
        let semantics: SeriesSemantics = series_semantics_from(input.u8()?)?;
        let maximum_gap_micros: Option<i64> = input.option_i64("maximum gap")?;
        let rollup_policy: RollupPolicy = RollupPolicy::take(input)?;
        let record = SeriesDefinition {
            id,
            owner_entity: entity_from(owner_entity),
            owner_relation: relation_from(owner_relation),
            name,
            physical_quantity,
            canonical_unit,
            semantics,
            maximum_gap_micros,
            rollup_policy,
        };
        if let Err(reason) = record.validate() {
            return Err(ProtocolError::InvalidField(reason));
        }
        Ok(record)
    }

    proof fn faults_stay(b: Seq<u8>, v: SeriesModel) {
        RollupPolicy::faults_stay(b, v.rollup_policy);
    }

    #[verifier::spinoff_prover]
    proof fn read_back(p: Seq<u8>, v: SeriesModel, q: Seq<u8>, b: Seq<u8>) {
        RollupPolicy::faults_stay(b, v.rollup_policy);
        let s0 = Emit::Bytes(p);
        let s0 = emit_check(s0, field_fault(series_fault(v)));
        let s1 = emit_be(s0, v.id as nat, 8);
        let s2 = emit_option_u128(s1, entity_number(v.owner_entity));
        let s3 = emit_option_u128(s2, relation_number(v.owner_relation));
        let s4 = emit_string(s3, v.name, MAX_KEY_BYTES as nat, "series name");
        let s5 = emit_string(s4, v.physical_quantity, MAX_KEY_BYTES as nat, "physical quantity");
        let s6 = emit_string(s5, v.canonical_unit, MAX_KEY_BYTES as nat, "canonical unit");
        let s7 = emit_u8(s6, series_semantics_tag(v.semantics));
        let s8 = emit_option_i64(s7, v.maximum_gap_micros);
        let s9 = RollupPolicy::emit(s8, v.rollup_policy);
        RollupPolicy::read_back(s8->Bytes_0, v.rollup_policy, q, b);
        lemma_option_i64(s7->Bytes_0, v.maximum_gap_micros, s8->Bytes_0, b, "maximum gap");
        lemma_u8(s6->Bytes_0, series_semantics_tag(v.semantics), s7->Bytes_0, b);
        lemma_string(s5->Bytes_0, v.canonical_unit, s6->Bytes_0, b, MAX_KEY_BYTES as nat, "canonical unit");
        lemma_string(s4->Bytes_0, v.physical_quantity, s5->Bytes_0, b, MAX_KEY_BYTES as nat, "physical quantity");
        lemma_string(s3->Bytes_0, v.name, s4->Bytes_0, b, MAX_KEY_BYTES as nat, "series name");
        lemma_option_u128(s2->Bytes_0, relation_number(v.owner_relation), s3->Bytes_0, b, "owner relation");
        lemma_option_u128(s1->Bytes_0, entity_number(v.owner_entity), s2->Bytes_0, b, "owner entity");
        lemma_u64(p, v.id, s1->Bytes_0, b);
    }
}

impl WireRecord for Run {
    open spec fn emit(s: Emit, v: RunModel) -> Emit {
        let s = emit_be(s, v.id.0 as nat, 16);
        let s = emit_u8(s, run_kind_tag(v.kind));
        let s = emit_u8(s, run_status_tag(v.status));
        let s = emit_i64(s, v.created_at);
        let s = emit_i64(s, v.knowledge_time);
        let s = emit_string(s, v.workflow, MAX_TEXT_BYTES as nat, "workflow");
        let s = emit_text(s, v.model, MAX_TEXT_BYTES as nat, "model");
        let s = emit_text(s, v.model_version, MAX_TEXT_BYTES as nat, "model version");
        let s = emit_option_u128(s, run_number(v.parent_run));
        let s = emit_option_u128(s, run_number(v.input_snapshot));
        emit_map::<PropertyValue>(s, v.attributes, "too many properties", "property key")
    }

    open spec fn scan(b: Seq<u8>, s: Scan) -> (RunModel, Scan) {
        let (id, s) = scan_u128(b, s);
        let (kind, s) = scan_run_kind(b, s);
        let (status, s) = scan_run_status(b, s);
        let (created_at, s) = scan_i64(b, s);
        let (knowledge_time, s) = scan_i64(b, s);
        let (workflow, s) = scan_string(b, s, MAX_TEXT_BYTES as nat, "workflow");
        let (model, s) = scan_text(b, s, MAX_TEXT_BYTES as nat, "model");
        let (model_version, s) = scan_text(b, s, MAX_TEXT_BYTES as nat, "model version");
        let (parent_run, s) = scan_option_u128(b, s, "parent run");
        let (input_snapshot, s) = scan_option_u128(b, s, "input snapshot");
        let (attributes, s) = scan_map::<PropertyValue>(b, s, "property count", "property key", "property keys");
        let v = RunModel {
            id: RunId(id),
            kind,
            status,
            created_at,
            knowledge_time,
            workflow,
            model,
            model_version,
            parent_run: run_of(parent_run),
            input_snapshot: run_of(input_snapshot),
            attributes,
        };
        (v, s)
    }

    open spec fn ordered(v: RunModel) -> bool {
        keys_ascend(v.attributes)
    }

    #[verifier::spinoff_prover]
    fn put(&self, out: &mut Vec<u8>) -> (outcome: Result<(), ProtocolError>) {
        let ghost v = self.deep_view();
        proof {
            lemma_map_faults_stay::<PropertyValue>(Seq::empty(), v.attributes, "too many properties", "property count", "property key", "property keys");
        }
        put_u128(out, self.id.0);
        put_u8(out, run_kind_byte(self.kind));
        put_u8(out, run_status_byte(self.status));
        put_i64(out, self.created_at);
        put_i64(out, self.knowledge_time);
        if let Err(e) = put_string(out, self.workflow.as_str(), MAX_TEXT_BYTES, "workflow") {
            return Err(e);
        }
        if let Err(e) = put_text(out, self.model.as_str(), MAX_TEXT_BYTES, "model") {
            return Err(e);
        }
        if let Err(e) = put_text(out, self.model_version.as_str(), MAX_TEXT_BYTES, "model version") {
            return Err(e);
        }
        put_option_u128(out, number_of_run(self.parent_run));
        put_option_u128(out, number_of_run(self.input_snapshot));
        put_map(out, &self.attributes, "too many properties", "property key")
    }

    #[verifier::spinoff_prover]
    fn take<'a>(input: &mut Input<'a>) -> (outcome: Result<Self, ProtocolError>) {
        proof {
            lemma_map_faults_stay::<PropertyValue>(input.data(), arbitrary(), "too many properties", "property count", "property key", "property keys");
        }
        let id: u128 = input.u128()?;
        let kind: RunKind = run_kind_from(input.u8()?)?;
        let status: RunStatus = run_status_from(input.u8()?)?;
        let created_at: i64 = input.i64()?;
        let knowledge_time: i64 = input.i64()?;
        let workflow: String = input.string(MAX_TEXT_BYTES, "workflow")?;
        let model: String = input.text(MAX_TEXT_BYTES, "model")?;
        let model_version: String = input.text(MAX_TEXT_BYTES, "model version")?;
        let parent_run: Option<u128> = input.option_u128("parent run")?;
        let input_snapshot: Option<u128> = input.option_u128("input snapshot")?;
        let attributes: Properties = take_map(input, "property count", "property key", "property keys")?;
        let record = Run {
            id: RunId(id),
            kind,
            status,
            created_at,
            knowledge_time,
            workflow,
            model,
            model_version,
            parent_run: run_from(parent_run),
            input_snapshot: run_from(input_snapshot),
            attributes,
        };
        Ok(record)
    }

    proof fn faults_stay(b: Seq<u8>, v: RunModel) {
        lemma_map_faults_stay::<PropertyValue>(b, v.attributes, "too many properties", "property count", "property key", "property keys");
    }

    #[verifier::spinoff_prover]
    proof fn read_back(p: Seq<u8>, v: RunModel, q: Seq<u8>, b: Seq<u8>) {
        lemma_map_faults_stay::<PropertyValue>(b, v.attributes, "too many properties", "property count", "property key", "property keys");
        let s0 = Emit::Bytes(p);
        let s1 = emit_be(s0, v.id.0 as nat, 16);
        let s2 = emit_u8(s1, run_kind_tag(v.kind));
        let s3 = emit_u8(s2, run_status_tag(v.status));
        let s4 = emit_i64(s3, v.created_at);
        let s5 = emit_i64(s4, v.knowledge_time);
        let s6 = emit_string(s5, v.workflow, MAX_TEXT_BYTES as nat, "workflow");
        let s7 = emit_text(s6, v.model, MAX_TEXT_BYTES as nat, "model");
        let s8 = emit_text(s7, v.model_version, MAX_TEXT_BYTES as nat, "model version");
        let s9 = emit_option_u128(s8, run_number(v.parent_run));
        let s10 = emit_option_u128(s9, run_number(v.input_snapshot));
        let s11 = emit_map::<PropertyValue>(s10, v.attributes, "too many properties", "property key");
        lemma_map_read_back::<PropertyValue>(s10->Bytes_0, v.attributes, q, b, "too many properties", "property count", "property key", "property keys");
        lemma_option_u128(s9->Bytes_0, run_number(v.input_snapshot), s10->Bytes_0, b, "input snapshot");
        lemma_option_u128(s8->Bytes_0, run_number(v.parent_run), s9->Bytes_0, b, "parent run");
        lemma_text(s7->Bytes_0, v.model_version, s8->Bytes_0, b, MAX_TEXT_BYTES as nat, "model version");
        lemma_text(s6->Bytes_0, v.model, s7->Bytes_0, b, MAX_TEXT_BYTES as nat, "model");
        lemma_string(s5->Bytes_0, v.workflow, s6->Bytes_0, b, MAX_TEXT_BYTES as nat, "workflow");
        lemma_i64(s4->Bytes_0, v.knowledge_time, s5->Bytes_0, b);
        lemma_i64(s3->Bytes_0, v.created_at, s4->Bytes_0, b);
        lemma_u8(s2->Bytes_0, run_status_tag(v.status), s3->Bytes_0, b);
        lemma_u8(s1->Bytes_0, run_kind_tag(v.kind), s2->Bytes_0, b);
        lemma_u128(p, v.id.0, s1->Bytes_0, b);
    }
}

impl WireRecord for Plan {
    open spec fn emit(s: Emit, v: PlanModel) -> Emit {
        let s = emit_check(s, field_fault(plan_fault(v)));
        let s = emit_be(s, v.id as nat, 16);
        let s = emit_be(s, v.run_id.0 as nat, 16);
        let s = emit_u8(s, plan_status_tag(v.status));
        let s = emit_i64(s, v.horizon_start);
        let s = emit_i64(s, v.horizon_end);
        let s = emit_i64(s, v.resolution_micros);
        let s = emit_string(s, v.scenario, MAX_TEXT_BYTES as nat, "scenario");
        let s = emit_map::<FloatBits>(s, v.objective_terms, "too many objective terms", "objective key");
        let s = emit_option_float(s, v.objective_value, "objective value");
        let s = emit_option_u128(s, v.supersedes);
        emit_map::<PropertyValue>(s, v.attributes, "too many properties", "property key")
    }

    open spec fn scan(b: Seq<u8>, s: Scan) -> (PlanModel, Scan) {
        let (id, s) = scan_u128(b, s);
        let (run_id, s) = scan_u128(b, s);
        let (status, s) = scan_plan_status(b, s);
        let (horizon_start, s) = scan_i64(b, s);
        let (horizon_end, s) = scan_i64(b, s);
        let (resolution_micros, s) = scan_i64(b, s);
        let (scenario, s) = scan_string(b, s, MAX_TEXT_BYTES as nat, "scenario");
        let (objective_terms, s) = scan_map::<FloatBits>(b, s, "objective term count", "objective key", "objective keys");
        let (objective_value, s) = scan_option_float(b, s, "objective value");
        let (supersedes, s) = scan_option_u128(b, s, "supersedes");
        let (attributes, s) = scan_map::<PropertyValue>(b, s, "property count", "property key", "property keys");
        let v = PlanModel {
            id,
            run_id: RunId(run_id),
            status,
            horizon_start,
            horizon_end,
            resolution_micros,
            scenario,
            objective_terms,
            objective_value,
            supersedes,
            attributes,
        };
        (v, scan_check(s, field_fault(plan_fault(v))))
    }

    open spec fn ordered(v: PlanModel) -> bool {
        keys_ascend(v.objective_terms) && keys_ascend(v.attributes)
    }

    #[verifier::spinoff_prover]
    fn put(&self, out: &mut Vec<u8>) -> (outcome: Result<(), ProtocolError>) {
        let ghost v = self.deep_view();
        proof {
            lemma_map_faults_stay::<FloatBits>(Seq::empty(), v.objective_terms, "too many objective terms", "objective term count", "objective key", "objective keys");
            lemma_map_faults_stay::<PropertyValue>(Seq::empty(), v.attributes, "too many properties", "property count", "property key", "property keys");
        }
        if let Err(reason) = self.validate() {
            return Err(ProtocolError::InvalidField(reason));
        }
        put_u128(out, self.id);
        put_u128(out, self.run_id.0);
        put_u8(out, plan_status_byte(self.status));
        put_i64(out, self.horizon_start);
        put_i64(out, self.horizon_end);
        put_i64(out, self.resolution_micros);
        if let Err(e) = put_string(out, self.scenario.as_str(), MAX_TEXT_BYTES, "scenario") {
            return Err(e);
        }
        if let Err(e) = put_map(out, &self.objective_terms, "too many objective terms", "objective key") {
            return Err(e);
        }
        if let Err(e) = put_option_float(out, self.objective_value, "objective value") {
            return Err(e);
        }
        put_option_u128(out, self.supersedes);
        put_map(out, &self.attributes, "too many properties", "property key")
    }

    #[verifier::spinoff_prover]
    fn take<'a>(input: &mut Input<'a>) -> (outcome: Result<Self, ProtocolError>) {
        proof {
            lemma_map_faults_stay::<FloatBits>(input.data(), arbitrary(), "too many objective terms", "objective term count", "objective key", "objective keys");
            lemma_map_faults_stay::<PropertyValue>(input.data(), arbitrary(), "too many properties", "property count", "property key", "property keys");
        }
        let id: u128 = input.u128()?;
        let run_id: u128 = input.u128()?;
        let status: PlanStatus = plan_status_from(input.u8()?)?;
        let horizon_start: i64 = input.i64()?;
        let horizon_end: i64 = input.i64()?;
        let resolution_micros: i64 = input.i64()?;
        let scenario: String = input.string(MAX_TEXT_BYTES, "scenario")?;
        let objective_terms: TextMap<FloatBits> = take_map(input, "objective term count", "objective key", "objective keys")?;
        let objective_value: Option<FloatBits> = input.option_float("objective value")?;
        let supersedes: Option<u128> = input.option_u128("supersedes")?;
        let attributes: Properties = take_map(input, "property count", "property key", "property keys")?;
        let record = Plan {
            id,
            run_id: RunId(run_id),
            status,
            horizon_start,
            horizon_end,
            resolution_micros,
            scenario,
            objective_terms,
            objective_value,
            supersedes,
            attributes,
        };
        if let Err(reason) = record.validate() {
            return Err(ProtocolError::InvalidField(reason));
        }
        Ok(record)
    }

    proof fn faults_stay(b: Seq<u8>, v: PlanModel) {
        lemma_map_faults_stay::<FloatBits>(b, v.objective_terms, "too many objective terms", "objective term count", "objective key", "objective keys");
        lemma_map_faults_stay::<PropertyValue>(b, v.attributes, "too many properties", "property count", "property key", "property keys");
    }

    #[verifier::spinoff_prover]
    proof fn read_back(p: Seq<u8>, v: PlanModel, q: Seq<u8>, b: Seq<u8>) {
        lemma_map_faults_stay::<FloatBits>(b, v.objective_terms, "too many objective terms", "objective term count", "objective key", "objective keys");
        lemma_map_faults_stay::<PropertyValue>(b, v.attributes, "too many properties", "property count", "property key", "property keys");
        let s0 = Emit::Bytes(p);
        let s0 = emit_check(s0, field_fault(plan_fault(v)));
        let s1 = emit_be(s0, v.id as nat, 16);
        let s2 = emit_be(s1, v.run_id.0 as nat, 16);
        let s3 = emit_u8(s2, plan_status_tag(v.status));
        let s4 = emit_i64(s3, v.horizon_start);
        let s5 = emit_i64(s4, v.horizon_end);
        let s6 = emit_i64(s5, v.resolution_micros);
        let s7 = emit_string(s6, v.scenario, MAX_TEXT_BYTES as nat, "scenario");
        let s8 = emit_map::<FloatBits>(s7, v.objective_terms, "too many objective terms", "objective key");
        let s9 = emit_option_float(s8, v.objective_value, "objective value");
        let s10 = emit_option_u128(s9, v.supersedes);
        let s11 = emit_map::<PropertyValue>(s10, v.attributes, "too many properties", "property key");
        lemma_map_read_back::<PropertyValue>(s10->Bytes_0, v.attributes, q, b, "too many properties", "property count", "property key", "property keys");
        lemma_option_u128(s9->Bytes_0, v.supersedes, s10->Bytes_0, b, "supersedes");
        lemma_option_float(s8->Bytes_0, v.objective_value, s9->Bytes_0, b, "objective value");
        lemma_map_read_back::<FloatBits>(s7->Bytes_0, v.objective_terms, s8->Bytes_0, b, "too many objective terms", "objective term count", "objective key", "objective keys");
        lemma_string(s6->Bytes_0, v.scenario, s7->Bytes_0, b, MAX_TEXT_BYTES as nat, "scenario");
        lemma_i64(s5->Bytes_0, v.resolution_micros, s6->Bytes_0, b);
        lemma_i64(s4->Bytes_0, v.horizon_end, s5->Bytes_0, b);
        lemma_i64(s3->Bytes_0, v.horizon_start, s4->Bytes_0, b);
        lemma_u8(s2->Bytes_0, plan_status_tag(v.status), s3->Bytes_0, b);
        lemma_u128(s1->Bytes_0, v.run_id.0, s2->Bytes_0, b);
        lemma_u128(p, v.id, s1->Bytes_0, b);
    }
}

impl WireRecord for Point {
    open spec fn emit(s: Emit, v: Point) -> Emit {
        let s = emit_be(s, v.series_id as nat, 8);
        let s = emit_i64(s, v.valid_time);
        let s = emit_i64(s, v.valid_time_end);
        let s = emit_i64(s, v.knowledge_time);
        let s = emit_i64(s, v.change_time);
        let s = emit_be(s, v.run_id as nat, 16);
        let s = emit_be(s, v.value.0 as nat, 8);
        let s = emit_be(s, v.quality as nat, 4);
        emit_be(s, v.flags as nat, 4)
    }

    open spec fn scan(b: Seq<u8>, s: Scan) -> (Point, Scan) {
        let (series_id, s) = scan_u64(b, s);
        let (valid_time, s) = scan_i64(b, s);
        let (valid_time_end, s) = scan_i64(b, s);
        let (knowledge_time, s) = scan_i64(b, s);
        let (change_time, s) = scan_i64(b, s);
        let (run_id, s) = scan_u128(b, s);
        let (value, s) = scan_u64(b, s);
        let (quality, s) = scan_u32(b, s);
        let (flags, s) = scan_u32(b, s);
        let v = Point {
            series_id,
            valid_time,
            valid_time_end,
            knowledge_time,
            change_time,
            run_id,
            value: FloatBits(value),
            quality,
            flags,
        };
        (v, s)
    }

    open spec fn ordered(v: Point) -> bool {
        true
    }

    #[verifier::spinoff_prover]
    fn put(&self, out: &mut Vec<u8>) -> (outcome: Result<(), ProtocolError>) {
        put_u64(out, self.series_id);
        put_i64(out, self.valid_time);
        put_i64(out, self.valid_time_end);
        put_i64(out, self.knowledge_time);
        put_i64(out, self.change_time);
        put_u128(out, self.run_id);
        put_u64(out, self.value.0);
        put_u32(out, self.quality);
        put_u32(out, self.flags);
        Ok(())
    }

    #[verifier::spinoff_prover]
    fn take<'a>(input: &mut Input<'a>) -> (outcome: Result<Self, ProtocolError>) {
        let series_id: u64 = input.u64()?;
        let valid_time: i64 = input.i64()?;
        let valid_time_end: i64 = input.i64()?;
        let knowledge_time: i64 = input.i64()?;
        let change_time: i64 = input.i64()?;
        let run_id: u128 = input.u128()?;
        let value: u64 = input.u64()?;
        let quality: u32 = input.u32()?;
        let flags: u32 = input.u32()?;
        let record = Point {
            series_id,
            valid_time,
            valid_time_end,
            knowledge_time,
            change_time,
            run_id,
            value: FloatBits(value),
            quality,
            flags,
        };
        Ok(record)
    }

    proof fn faults_stay(b: Seq<u8>, v: Point) {
    }

    #[verifier::spinoff_prover]
    proof fn read_back(p: Seq<u8>, v: Point, q: Seq<u8>, b: Seq<u8>) {
        let s0 = Emit::Bytes(p);
        let s1 = emit_be(s0, v.series_id as nat, 8);
        let s2 = emit_i64(s1, v.valid_time);
        let s3 = emit_i64(s2, v.valid_time_end);
        let s4 = emit_i64(s3, v.knowledge_time);
        let s5 = emit_i64(s4, v.change_time);
        let s6 = emit_be(s5, v.run_id as nat, 16);
        let s7 = emit_be(s6, v.value.0 as nat, 8);
        let s8 = emit_be(s7, v.quality as nat, 4);
        let s9 = emit_be(s8, v.flags as nat, 4);
        lemma_u32(s8->Bytes_0, v.flags, q, b);
        lemma_u32(s7->Bytes_0, v.quality, s8->Bytes_0, b);
        lemma_u64(s6->Bytes_0, v.value.0, s7->Bytes_0, b);
        lemma_u128(s5->Bytes_0, v.run_id, s6->Bytes_0, b);
        lemma_i64(s4->Bytes_0, v.change_time, s5->Bytes_0, b);
        lemma_i64(s3->Bytes_0, v.knowledge_time, s4->Bytes_0, b);
        lemma_i64(s2->Bytes_0, v.valid_time_end, s3->Bytes_0, b);
        lemma_i64(s1->Bytes_0, v.valid_time, s2->Bytes_0, b);
        lemma_u64(p, v.series_id, s1->Bytes_0, b);
    }
}

} // verus!
