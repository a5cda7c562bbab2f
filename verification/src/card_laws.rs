//! What a client of the emulated card can rely on, and what its faults can do.
#[allow(unused_imports)]
use crate::sd_card::{
    after_begin, after_corruption, after_erase, after_evict, after_power_loss, after_store,
    after_transfer, after_wait, after_wear, backed, cached_bytes, covered, cut_writes, evictions,
    first_block, flush_effects, last_block, lemma_backed_writes, lemma_begin_keeps, lemma_blocks,
    lemma_erase_keeps, lemma_evictions_fit, lemma_persisted_keeps, lemma_power_loss_keeps,
    lemma_sync_changes_nothing, lemma_wait_keeps, lemma_wear_keeps, plus, power_cut, put, put_all,
    read_effects, shuffled, service_time, sound_card, swapped, visible, with_persisted,
    write_effects, write_steps, CardModel, DeviceFault, DeviceStatus, ErrorCode, FaultKind, Stats,
    StepModel, SyncPoint, WriteModel,
};
#[allow(unused_imports)]
use crate::sd_profile::{power_of_two, profile_fault, IoProfile, Profile};
#[allow(unused_imports)]
use crate::sd_random::{drawn_below, drawn_chance, drawn_tear, stepped};
#[allow(unused_imports)]
use crate::text::blank;
use vstd::prelude::*;
use vstd::string::*;

verus! {

/// A request that does not lie on the device is refused, and changes nothing: neither the
/// card nor its backing file. A device that is gone refuses everything so.
pub proof fn refused_requests_change_nothing(
    m: CardModel,
    offset: u64,
    data: Seq<u8>,
    fua: bool,
    length: nat,
)
    ensures
        offset + data.len() > m.profile.device.size_bytes ==> {
            let effects = write_effects(m, offset, data, fua);
            &&& effects.fault matches Some(fault) && (fault.code == ErrorCode::Invalid || fault.code
                == ErrorCode::NoSpace)
            &&& effects.card == m
            &&& effects.steps.len() == 0
        },
        offset + length > m.profile.device.size_bytes ==> {
            let effects = read_effects(m, offset, length);
            &&& effects.fault matches Some(fault) && (fault.code == ErrorCode::Invalid || fault.code
                == ErrorCode::NoSpace)
            &&& effects.card == m
            &&& effects.steps.len() == 0
        },
        m.status == DeviceStatus::Offline ==> {
            &&& write_effects(m, offset, data, fua).fault is Some
            &&& write_effects(m, offset, data, fua).card == m
            &&& write_effects(m, offset, data, fua).steps.len() == 0
            &&& read_effects(m, offset, length).fault is Some
            &&& read_effects(m, offset, length).card == m
            &&& flush_effects(m).fault matches Some(fault) && fault.code == ErrorCode::Disconnected
            &&& flush_effects(m).card == m
        },
{
}

/// Whether nothing is to go wrong on a card.
pub open spec fn flawless(p: Profile) -> bool {
    &&& p.faults.eio_probability_ppm == 0
    &&& p.faults.torn_write_probability_ppm == 0
    &&& p.faults.silent_corruption_probability_ppm == 0
    &&& p.faults.power_loss_after_ops is None
    &&& p.faults.disappear_after_ops is None
    &&& p.faults.read_only_after_ops is None
    &&& p.cache.false_flush_probability_ppm == 0
    &&& !p.wear.enabled
}

/// A card on which nothing is to go wrong does what it is asked. While it is online and no
/// block has failed, every request that lies on the device succeeds; a read and a flush do
/// so on a card that is locked, too. A flush leaves nothing in the cache.
pub proof fn flawless_cards_do_what_they_are_asked(
    m: CardModel,
    offset: u64,
    data: Seq<u8>,
    fua: bool,
    length: nat,
)
    requires
        flawless(m.profile),
        m.status != DeviceStatus::Offline,
        forall|b: int| 0 <= b < m.bad.len() ==> !(#[trigger] m.bad[b]),
        sound_card(m),
    ensures
        offset + data.len() <= m.profile.device.size_bytes && m.status == DeviceStatus::Online
            ==> write_effects(m, offset, data, fua).fault is None,
        offset + length <= m.profile.device.size_bytes ==> read_effects(m, offset, length).fault
            is None,
        flush_effects(m).fault is None,
        flush_effects(m).steps.len() > 0,
        flush_effects(m).card.pending.len() == 0,
{
    lemma_begin_keeps(m, offset);
    lemma_begin_keeps(m, 0);
    let (m1, steps, begun) = after_begin(m, offset);
    if data.len() > 0 && offset + data.len() <= m.profile.device.size_bytes {
        lemma_blocks(m, offset, data.len());
    }
    if length > 0 && offset + length <= m.profile.device.size_bytes {
        lemma_blocks(m, offset, length);
    }
    lemma_wait_keeps(m1, true);
    let f1 = after_begin(m, 0).0;
    lemma_wait_keeps(f1, true);
    let f2 = after_wait(f1, true).0;
    let f3 = CardModel {
        stats: Stats { flush_operations: plus(f2.stats.flush_operations, 1), ..f2.stats },
        ..f2
    };
    lemma_persisted_keeps(CardModel { pending: Seq::empty(), ..f3 }, f3.pending);
}

/// A locked card takes no write. Unless its power is cut at that moment, nothing of what
/// it holds changes.
pub proof fn locked_cards_take_no_writes(m: CardModel, offset: u64, data: Seq<u8>, fua: bool)
    requires
        m.status == DeviceStatus::ReadOnly,
    ensures
        ({
            let effects = write_effects(m, offset, data, fua);
            &&& effects.fault is Some
            &&& effects.card.status != DeviceStatus::Offline ==> effects.card.pending == m.pending
                && effects.steps.len() == 0
            &&& offset + data.len() <= m.profile.device.size_bytes && flawless(m.profile)
                ==> effects.fault->Some_0.code == ErrorCode::ReadOnly
        }),
{
    lemma_begin_keeps(m, offset);
    lemma_power_loss_keeps(
        CardModel { stats: Stats { operations: plus(m.stats.operations, 1), ..m.stats }, ..m },
        FaultKind::ScheduledPowerLoss,
    );
    lemma_power_loss_keeps(
        CardModel { stats: Stats { operations: plus(m.stats.operations, 1), ..m.stats }, ..m },
        FaultKind::ScheduledDisappearance,
    );
}

/// A forced write that succeeds on a card that does not lie is on the medium when it is
/// answered, and so is all that waited before it; nothing waits behind it.
pub proof fn forced_writes_reach_the_medium(contents: Seq<u8>, m: CardModel, offset: u64, data: Seq<u8>)
    requires
        sound_card(m),
        m.profile.cache.false_flush_probability_ppm == 0,
        m.profile.faults.silent_corruption_probability_ppm == 0,
        write_effects(m, offset, data, true).fault is None,
    ensures
        ({
            let effects = write_effects(m, offset, data, true);
            &&& effects.card.pending.len() == 0
            &&& backed(contents, effects.steps) == put(
                visible(contents, m),
                WriteModel { offset, data },
            )
            &&& effects.steps.last() is Sync
        }),
{
    lemma_begin_keeps(m, offset);
    let (m1, steps, begun) = after_begin(m, offset);
    lemma_wait_keeps(m1, true);
    let m2 = after_wait(m1, true).0;
    lemma_wear_keeps(m2, offset, data.len());
    let m3 = after_wear(m2, offset, data.len()).0;
    let operation = begun->Ok_0;
    let (torn, rng1) = drawn_chance(m3.rng, m3.profile.faults.torn_write_probability_ppm);
    let m4 = CardModel { rng: rng1, ..m3 };
    let (m5, stored) = after_corruption(m4, operation, offset, data);
    let write = WriteModel { offset, data };
    let all = m5.pending.push(write);
    assert(all.drop_last() =~= m.pending);
    let m6 = CardModel {
        stats: Stats {
            write_operations: plus(m5.stats.write_operations, 1),
            write_bytes: plus(m5.stats.write_bytes, data.len()),
            ..m5.stats
        },
        ..m5
    };
    if m.profile.cache.enabled {
        lemma_persisted_keeps(CardModel { pending: Seq::empty(), ..m6 }, all);
        lemma_backed_writes(contents, all);
        lemma_sync_changes_nothing(contents, write_steps(all), SyncPoint::FuaWrite);
    } else {
        let one = seq![write];
        lemma_persisted_keeps(m6, one);
        lemma_backed_writes(contents, one);
        lemma_sync_changes_nothing(contents, write_steps(one), SyncPoint::Write);
        assert(one.drop_last() =~= Seq::<WriteModel>::empty());
        assert(put_all(contents, one.drop_last()) == contents);
        assert(m.pending =~= Seq::<WriteModel>::empty());
    }
}

proof fn lemma_evicted_down(pending: Seq<WriteModel>, max: u64)
    ensures
        cached_bytes(pending.skip(evictions(pending, max) as int)) <= max,
    decreases pending.len(),
{
    lemma_evictions_fit(pending, max);
    if pending.len() > 0 && cached_bytes(pending) > max {
        lemma_evicted_down(pending.skip(1), max);
        let n = evictions(pending.skip(1), max) as int;
        lemma_evictions_fit(pending.skip(1), max);
        assert(pending.skip(1).skip(n) =~= pending.skip(n + 1));
    } else {
        assert(pending.skip(0) =~= pending);
    }
}

/// The cache never holds more than it may: the oldest writes leave it first, and reach the
/// medium in their order. No more of them leave than must.
pub proof fn caches_keep_their_size(m: CardModel)
    ensures
        ({
            let (after, steps) = after_evict(m);
            let n = m.pending.len() - after.pending.len();
            &&& cached_bytes(after.pending) <= m.profile.cache.max_bytes
            &&& 0 <= n <= m.pending.len()
            &&& after.pending == m.pending.skip(n)
            &&& forall|i: int|
                0 <= i < n ==> #[trigger] steps[i] == StepModel::Write(m.pending[i])
            &&& n == 0 ==> steps.len() == 0
            &&& n > 0 ==> steps.len() == n + 1 && steps[n] is Sync && cached_bytes(
                m.pending.skip(n - 1),
            ) > m.profile.cache.max_bytes
        }),
{
    let n = evictions(m.pending, m.profile.cache.max_bytes) as int;
    lemma_evictions_fit(m.pending, m.profile.cache.max_bytes);
    lemma_evicted_down(m.pending, m.profile.cache.max_bytes);
    lemma_persisted_keeps(CardModel { pending: m.pending.skip(n), ..m }, m.pending.take(n));
    if n > 0 {
        lemma_last_eviction(m.pending, m.profile.cache.max_bytes);
    }
}

proof fn lemma_last_eviction(pending: Seq<WriteModel>, max: u64)
    requires
        evictions(pending, max) > 0,
    ensures
        cached_bytes(pending.skip(evictions(pending, max) - 1)) > max,
    decreases pending.len(),
{
    let rest = pending.skip(1);
    if evictions(rest, max) > 0 {
        lemma_last_eviction(rest, max);
        let n = evictions(rest, max) - 1;
        lemma_evictions_fit(rest, max);
        assert(rest.skip(n) =~= pending.skip(n + 1));
    } else {
        assert(pending.skip(0) =~= pending);
    }
}

/// Whether a byte at a place comes from one of some writes.
pub open spec fn comes_from(writes: Seq<WriteModel>, at: int, byte: u8) -> bool {
    exists|w: int|
        0 <= w < writes.len() && covered(#[trigger] writes[w], at) && writes[w].data[at
            - writes[w].offset] == byte
}

/// Whether a write is one of some others, or the beginning of one.
spec fn begins_one(write: WriteModel, writes: Seq<WriteModel>) -> bool {
    exists|w: int|
        0 <= w < writes.len() && (#[trigger] writes[w]).offset == write.offset && write.data.len()
            <= writes[w].data.len() && write.data == writes[w].data.take(write.data.len() as int)
}

spec fn all_begin_one(list: Seq<WriteModel>, writes: Seq<WriteModel>) -> bool {
    forall|i: int| 0 <= i < list.len() ==> begins_one(#[trigger] list[i], writes)
}

spec fn steps_begin_one(steps: Seq<StepModel>, writes: Seq<WriteModel>) -> bool {
    forall|i: int|
        0 <= i < steps.len() ==> ((#[trigger] steps[i]) matches StepModel::Write(write)
            ==> begins_one(write, writes))
}

proof fn lemma_cut_begins(m: CardModel, list: Seq<WriteModel>, n: nat)
    requires
        n <= list.len(),
        forall|i: int| 0 <= i < list.len() ==> (#[trigger] list[i]).data.len() <= usize::MAX,
    ensures
        all_begin_one(cut_writes(m, list.take(n as int)).1, list),
        steps_begin_one(cut_writes(m, list.take(n as int)).2, list),
    decreases n,
{
    let some = list.take(n as int);
    if n > 0 {
        lemma_cut_begins(m, list, (n - 1) as nat);
        let front = some.drop_last();
        assert(front =~= list.take(n - 1));
        let write = list[n - 1];
        assert(some.last() == write);
        let (m1, kept, steps) = cut_writes(m, front);
        assert(begins_one(write, list)) by {
            assert(list[n - 1].data.take(write.data.len() as int) =~= write.data);
        }
        assert forall|i: int| 0 <= i < kept.push(write).len() implies begins_one(
            #[trigger] kept.push(write)[i],
            list,
        ) by {
            if i < kept.len() {
                assert(kept.push(write)[i] == kept[i]);
            }
        }
        let (roll, rng) = drawn_below(m1.rng, 1_000_000);
        let (length, rng2) = drawn_tear(rng, write.data.len());
        tears_are_proper(rng, write.data.len());
        let landed = WriteModel { offset: write.offset, data: write.data.take(length as int) };
        assert(begins_one(landed, list)) by {
            assert(list[n - 1].data.take(landed.data.len() as int) =~= landed.data);
        }
        let more = steps.push(StepModel::Write(landed));
        assert forall|i: int| 0 <= i < more.len() implies ((#[trigger] more[i])
            matches StepModel::Write(w) ==> begins_one(w, list)) by {
            if i < steps.len() {
                assert(more[i] == steps[i]);
            }
        }
    }
}

/// A torn write lands in part: of two bytes or more at least one lands, and at least one
/// does not; a single byte does not land at all.
pub proof fn tears_are_proper(rng: u64, length: nat)
    requires
        length <= usize::MAX,
    ensures
        length >= 2 ==> 1 <= drawn_tear(rng, length).0 < length,
        length < 2 ==> drawn_tear(rng, length).0 == 0,
{
}

proof fn lemma_shuffled_begins(
    list: Seq<WriteModel>,
    rng: u64,
    from: nat,
    writes: Seq<WriteModel>,
)
    requires
        from < list.len() <= usize::MAX,
        all_begin_one(list, writes),
    ensures
        all_begin_one(shuffled(list, rng, from).0, writes),
        shuffled(list, rng, from).0.len() == list.len(),
    decreases from,
{
    if from > 0 {
        let (other, next) = drawn_below(rng, (from + 1) as u64);
        let moved = swapped(list, from as int, other as int);
        assert forall|i: int| 0 <= i < moved.len() implies begins_one(#[trigger] moved[i], writes) by {
            assert(moved[i] == list[i] || moved[i] == list[from as int] || moved[i]
                == list[other as int]);
        }
        lemma_shuffled_begins(moved, next, (from - 1) as nat, writes);
    }
}

proof fn lemma_backed_from(contents: Seq<u8>, steps: Seq<StepModel>, writes: Seq<WriteModel>, at: int)
    requires
        steps_begin_one(steps, writes),
        0 <= at < contents.len(),
    ensures
        backed(contents, steps).len() == contents.len(),
        backed(contents, steps)[at] == contents[at] || comes_from(
            writes,
            at,
            backed(contents, steps)[at],
        ),
    decreases steps.len(),
{
    if steps.len() > 0 {
        let front = steps.drop_last();
        assert forall|i: int| 0 <= i < front.len() implies ((#[trigger] front[i])
            matches StepModel::Write(write) ==> begins_one(write, writes)) by {
            assert(front[i] == steps[i]);
        }
        lemma_backed_from(contents, front, writes, at);
        if let StepModel::Write(write) = steps.last() {
            assert(steps[steps.len() - 1] == StepModel::Write(write));
            assert(begins_one(write, writes));
            let w = choose|w: int|
                0 <= w < writes.len() && (#[trigger] writes[w]).offset == write.offset
                    && write.data.len() <= writes[w].data.len() && write.data
                    == writes[w].data.take(write.data.len() as int);
            if covered(write, at) {
                assert(covered(writes[w], at));
                assert(writes[w].data[at - writes[w].offset] == write.data[at - write.offset]);
            }
        }
    }
}

/// A power cut invents nothing: behind it, every byte of the medium is the one that was
/// there, or that of a write which waited in the cache. The cache is empty then, and the
/// card is gone until it is put back.
pub proof fn power_cuts_invent_nothing(contents: Seq<u8>, m: CardModel, kind: FaultKind, at: int)
    requires
        0 <= at < contents.len(),
        m.pending.len() <= usize::MAX,
        forall|i: int| 0 <= i < m.pending.len() ==> (#[trigger] m.pending[i]).data.len()
            <= usize::MAX,
    ensures
        ({
            let (after, steps) = after_power_loss(m, kind);
            let left = backed(contents, steps);
            &&& left.len() == contents.len()
            &&& left[at] == contents[at] || comes_from(m.pending, at, left[at])
            &&& after.pending.len() == 0
            &&& after.status == DeviceStatus::Offline
            &&& after.stats.last_fault_kind == Some(kind)
        }),
{
    lemma_power_loss_keeps(m, kind);
    let start = CardModel { pending: Seq::empty(), ..m };
    assert(m.pending.take(m.pending.len() as int) =~= m.pending);
    lemma_cut_begins(start, m.pending, m.pending.len());
    let (m1, kept, torn) = cut_writes(start, m.pending);
    lemma_kept_len(start, m.pending);
    let (m2, order) = power_cut(m);
    assert(all_begin_one(order, m.pending)) by {
        if kept.len() > 1 {
            let (reorder, rng) = drawn_chance(
                m1.rng,
                m.profile.cache.power_loss_reorder_probability_ppm,
            );
            lemma_shuffled_begins(kept, rng, (kept.len() - 1) as nat, m.pending);
        }
    }
    let steps = after_power_loss(m, kind).1;
    let tail = seq![StepModel::Sync(SyncPoint::PowerLoss)];
    assert(steps == torn + write_steps(order) + tail);
    assert forall|i: int| 0 <= i < steps.len() implies ((#[trigger] steps[i])
        matches StepModel::Write(write) ==> begins_one(write, m.pending)) by {
        if i < torn.len() {
            assert(steps[i] == torn[i]);
        } else if i < torn.len() + order.len() {
            assert(steps[i] == StepModel::Write(order[i - torn.len()]));
            assert(begins_one(order[i - torn.len()], m.pending));
        }
    }
    lemma_backed_from(contents, steps, m.pending, at);
}

proof fn lemma_kept_len(m: CardModel, list: Seq<WriteModel>)
    ensures
        cut_writes(m, list).1.len() <= list.len(),
    decreases list.len(),
{
    if list.len() > 0 {
        lemma_kept_len(m, list.drop_last());
    }
}

proof fn lemma_all_kept(m: CardModel, list: Seq<WriteModel>)
    requires
        m.profile.cache.power_loss_persist_probability_ppm == 1_000_000,
    ensures
        cut_writes(m, list).1 == list,
        cut_writes(m, list).2.len() == 0,
    decreases list.len(),
{
    if list.len() > 0 {
        lemma_all_kept(m, list.drop_last());
        assert(list.drop_last().push(list.last()) =~= list);
    } else {
        assert(list =~= Seq::<WriteModel>::empty());
    }
}

proof fn lemma_all_lost(m: CardModel, list: Seq<WriteModel>)
    requires
        m.profile.cache.power_loss_persist_probability_ppm == 0,
        m.profile.cache.power_loss_torn_probability_ppm == 0,
    ensures
        cut_writes(m, list).1.len() == 0,
        cut_writes(m, list).2.len() == 0,
    decreases list.len(),
{
    if list.len() > 0 {
        lemma_all_lost(m, list.drop_last());
    }
}

/// Where every cached write is sure to persist, in order, a power cut loses nothing: the
/// medium then holds what a client has read. Where none persists and none is torn, it
/// loses the whole cache: the medium holds what it held.
pub proof fn certain_power_cuts_keep_or_lose_the_cache(
    contents: Seq<u8>,
    m: CardModel,
    kind: FaultKind,
)
    ensures
        m.profile.cache.power_loss_persist_probability_ppm == 1_000_000
            && m.profile.cache.power_loss_reorder_probability_ppm == 0 ==> backed(
            contents,
            after_power_loss(m, kind).1,
        ) == visible(contents, m),
        m.profile.cache.power_loss_persist_probability_ppm == 0
            && m.profile.cache.power_loss_torn_probability_ppm == 0 ==> backed(
            contents,
            after_power_loss(m, kind).1,
        ) == contents,
{
    let start = CardModel { pending: Seq::empty(), ..m };
    let (m1, kept, torn) = cut_writes(start, m.pending);
    let steps = after_power_loss(m, kind).1;
    if m.profile.cache.power_loss_persist_probability_ppm == 1_000_000
        && m.profile.cache.power_loss_reorder_probability_ppm == 0 {
        lemma_all_kept(start, m.pending);
        assert(torn =~= Seq::<StepModel>::empty());
        lemma_backed_writes(contents, m.pending);
        lemma_sync_changes_nothing(contents, write_steps(m.pending), SyncPoint::PowerLoss);
        assert(steps =~= write_steps(m.pending).push(StepModel::Sync(SyncPoint::PowerLoss)));
    }
    if m.profile.cache.power_loss_persist_probability_ppm == 0
        && m.profile.cache.power_loss_torn_probability_ppm == 0 {
        lemma_all_lost(start, m.pending);
        let none = Seq::<StepModel>::empty();
        assert(steps =~= none.push(StepModel::Sync(SyncPoint::PowerLoss)));
        lemma_sync_changes_nothing(contents, none, SyncPoint::PowerLoss);
    }
}

/// Faults come when they are scheduled: the operation with the number of a power cut or of
/// a disappearance fails and leaves the card gone; that with the number of a lock leaves
/// the card locked, where it is not gone.
pub proof fn scheduled_faults_come_in_time(m: CardModel, offset: u64)
    requires
        m.status != DeviceStatus::Offline,
        m.stats.operations < u64::MAX,
    ensures
        ({
            let (after, steps, begun) = after_begin(m, offset);
            let now = Some((m.stats.operations + 1) as u64);
            let cut = m.profile.faults.power_loss_after_ops == now;
            let gone = m.profile.faults.disappear_after_ops == now;
            &&& cut || gone ==> begun is Err && after.status == DeviceStatus::Offline
            &&& cut ==> after.stats.last_fault_kind == Some(FaultKind::ScheduledPowerLoss)
            &&& !cut && gone ==> after.stats.last_fault_kind == Some(
                FaultKind::ScheduledDisappearance,
            )
            &&& !cut && !gone ==> after.status == if m.profile.faults.read_only_after_ops == now {
                DeviceStatus::ReadOnly
            } else {
                m.status
            }
            &&& !cut && !gone ==> after.stats.operations == m.stats.operations + 1
                && steps.len() == 0
            &&& !cut && !gone && m.profile.faults.eio_probability_ppm == 0 ==> begun == Ok::<
                u64,
                DeviceFault,
            >((m.stats.operations + 1) as u64)
            &&& !cut && !gone && m.profile.faults.eio_probability_ppm >= 1_000_000 ==> begun is Err
                && after.stats.last_fault_kind == Some(FaultKind::RandomEio)
        }),
{
    let m1 = CardModel {
        stats: Stats { operations: plus(m.stats.operations, 1), ..m.stats },
        ..m
    };
    lemma_power_loss_keeps(m1, FaultKind::ScheduledPowerLoss);
    lemma_power_loss_keeps(m1, FaultKind::ScheduledDisappearance);
}

/// Silent corruption flips one bit of one byte, or nothing; where it has no chance, nothing.
pub proof fn corruption_flips_one_bit(
    m: CardModel,
    operation: u64,
    offset: u64,
    data: Seq<u8>,
    at: int,
)
    requires
        data.len() <= usize::MAX,
        0 <= at < data.len(),
    ensures
        ({
            let (after, stored) = after_corruption(m, operation, offset, data);
            &&& stored.len() == data.len()
            &&& m.profile.faults.silent_corruption_probability_ppm == 0 ==> stored == data
            &&& stored[at] != data[at] ==> {
                &&& forall|i: int|
                    0 <= i < data.len() && i != at ==> #[trigger] stored[i] == data[i]
                &&& exists|bit: u8| bit < 8 && stored[at] == data[at] ^ (#[trigger] (1u8 << bit))
                &&& after.stats.injected_corruptions >= m.stats.injected_corruptions
                &&& after.stats.last_fault_kind == Some(FaultKind::SilentCorruption)
            }
        }),
{
    let (hit, rng1) = drawn_chance(m.rng, m.profile.faults.silent_corruption_probability_ppm);
    if hit {
        let (index, rng2) = drawn_below(rng1, data.len() as u64);
        let (bit, rng3) = drawn_below(rng2, 8);
        assert((bit as u8) < 8);
        let flip = 1u8 << (bit as u8);
    }
}

/// A torn write is answered with an error, and only a part of it lands.
pub proof fn torn_writes_fail_and_land_in_part(
    m: CardModel,
    operation: u64,
    offset: u64,
    data: Seq<u8>,
    fua: bool,
)
    requires
        data.len() <= usize::MAX,
    ensures
        ({
            let (after, steps, fault) = after_transfer(m, operation, offset, data, fua);
            let torn = drawn_chance(m.rng, m.profile.faults.torn_write_probability_ppm).0;
            &&& fault is Some <==> torn
            &&& torn ==> {
                &&& fault->Some_0.code == ErrorCode::Io
                &&& steps.len() == 2
                &&& steps[0] matches StepModel::Write(landed) && landed.offset == offset
                    && landed.data.len() <= data.len() && landed.data == data.take(
                    landed.data.len() as int,
                ) && (data.len() > 0 ==> landed.data.len() < data.len())
                &&& steps[1] is Sync
                &&& after.pending == m.pending
            }
        }),
{
    let (torn, rng1) = drawn_chance(m.rng, m.profile.faults.torn_write_probability_ppm);
    tears_are_proper(rng1, data.len());
    let (length, rng2) = drawn_tear(rng1, data.len());
    let landed = WriteModel { offset, data: data.take(length as int) };
    lemma_persisted_keeps(CardModel { rng: rng2, ..m }, seq![landed]);
}

/// An erase wears its blocks and no others: each gains as many cycles as the profile says,
/// and fails once it has reached the limit. A block that failed stays failed.
pub proof fn erases_wear_their_blocks(m: CardModel, first: int, n: nat, b: int)
    requires
        0 <= first,
        first + n <= m.wear.len(),
        m.bad.len() == m.wear.len(),
        0 <= b < m.wear.len(),
    ensures
        ({
            let after = after_erase(m, first, n);
            let touched = first <= b < first + n;
            let cycles = m.wear[b] + m.profile.wear.accelerated_factor;
            &&& after.wear.len() == m.wear.len() && after.bad.len() == m.bad.len()
            &&& !touched ==> after.wear[b] == m.wear[b] && after.bad[b] == m.bad[b]
            &&& touched ==> after.wear[b] == if cycles > u64::MAX {
                u64::MAX as int
            } else {
                cycles
            }
            &&& touched ==> (after.bad[b] <==> m.bad[b] || after.wear[b]
                >= m.profile.wear.failure_cycles)
            &&& touched ==> after.stats.max_erase_count >= after.wear[b]
            &&& after.stats.max_erase_count >= m.stats.max_erase_count
        }),
    decreases n,
{
    lemma_erase_keeps(m, first, n);
    if n > 0 {
        let m1 = (n - 1) as nat;
        lemma_erase_keeps(m, first, m1);
        erases_wear_their_blocks(m, first, m1, b);
        let block = first + n - 1;
        if b != block {
            erases_wear_their_blocks(m, first, m1, block);
        }
    }
}

/// A request that touches a failed block fails as an error of the medium, whether it reads
/// or writes, and moves no data.
pub proof fn failed_blocks_are_not_served(
    m: CardModel,
    offset: u64,
    data: Seq<u8>,
    fua: bool,
    b: int,
)
    requires
        sound_card(m),
        flawless(m.profile),
        m.status == DeviceStatus::Online,
        data.len() > 0,
        offset + data.len() <= m.profile.device.size_bytes,
        0 <= b < m.bad.len(),
        m.bad[b],
        b * m.profile.device.erase_block_bytes < offset + data.len(),
        offset < (b + 1) * m.profile.device.erase_block_bytes,
    ensures
        write_effects(m, offset, data, fua).fault matches Some(fault) && fault.code
            == ErrorCode::Io,
        write_effects(m, offset, data, fua).steps.len() == 0,
        write_effects(m, offset, data, fua).card.pending == m.pending,
        read_effects(m, offset, data.len()).fault matches Some(fault) && fault.code
            == ErrorCode::Io,
{
    lemma_begin_keeps(m, offset);
    lemma_blocks(m, offset, data.len());
    let size = m.profile.device.erase_block_bytes as int;
    let first = first_block(m, offset);
    let last = last_block(m, offset, data.len());
    assert(first <= b) by (nonlinear_arith)
        requires
            first == (offset as int) / size,
            (offset as int) < (b + 1) * size,
            size > 0,
    ;
    let end = offset + data.len() - 1;
    assert(b <= last) by (nonlinear_arith)
        requires
            last == end / size,
            b * size <= end,
            size > 0,
    ;
    let m1 = after_begin(m, offset).0;
    assert(m1.bad[b]);
}

/// How long a request waits: no less than the base latency, and on a card without spikes
/// and wear no more than the jitter beyond it.
pub proof fn latencies_lie_in_their_range(m: CardModel, write: bool)
    ensures
        ({
            let io = if write {
                m.profile.write
            } else {
                m.profile.read
            };
            let (after, latency) = after_wait(m, write);
            &&& latency >= io.base_latency_us
            &&& io.spike_probability_ppm == 0 && !m.profile.wear.enabled ==> latency
                <= io.base_latency_us + io.jitter_latency_us
            &&& io.spike_probability_ppm == 0 ==> after.stats.latency_spikes
                == m.stats.latency_spikes
            &&& io.spike_probability_ppm >= 1_000_000 && m.stats.latency_spikes < u64::MAX
                ==> after.stats.latency_spikes == m.stats.latency_spikes + 1
            &&& io.spike_probability_ppm >= 1_000_000 && io.base_latency_us
                + io.spike_latency_us_min <= u64::MAX ==> latency >= io.base_latency_us
                + io.spike_latency_us_min
        }),
{
}

/// A device is busy with a request for as long as its bandwidth and its rate of operations
/// ask for, whichever is longer, up to the next microsecond.
pub proof fn service_times_keep_the_rates(io: IoProfile, bytes: nat)
    requires
        service_time(io, bytes) < u64::MAX,
    ensures
        io.bandwidth_bytes_per_second > 0 ==> service_time(io, bytes)
            * io.bandwidth_bytes_per_second >= bytes * 1_000_000,
        io.iops > 0 ==> service_time(io, bytes) * io.iops >= 1_000_000,
        io.bandwidth_bytes_per_second == 0 && io.iops == 0 ==> service_time(io, bytes) == 0,
        service_time(io, bytes) > 0 ==> {
            ||| io.bandwidth_bytes_per_second > 0 && (service_time(io, bytes) - 1)
                * io.bandwidth_bytes_per_second < bytes * 1_000_000
            ||| io.iops > 0 && (service_time(io, bytes) - 1) * io.iops < 1_000_000
        },
{
    let t = service_time(io, bytes) as int;
    let bw = io.bandwidth_bytes_per_second as int;
    let work = bytes as int * 1_000_000;
    if bw > 0 {
        let q = (work + bw - 1) / bw;
        vstd::arithmetic::div_mod::lemma_fundamental_div_mod(work + bw - 1, bw);
        vstd::arithmetic::div_mod::lemma_mod_bound(work + bw - 1, bw);
        let r = (work + bw - 1) % bw;
        assert(q * bw >= work && (q - 1) * bw < work) by (nonlinear_arith)
            requires
                work + bw - 1 == bw * q + r,
                0 <= r < bw,
        ;
        assert(t * bw >= q * bw) by (nonlinear_arith)
            requires
                t >= q,
                bw > 0,
        ;
    }
    let iops = io.iops as int;
    if iops > 0 {
        let q = (1_000_000 + iops - 1) / iops;
        vstd::arithmetic::div_mod::lemma_fundamental_div_mod(1_000_000 + iops - 1, iops);
        vstd::arithmetic::div_mod::lemma_mod_bound(1_000_000 + iops - 1, iops);
        let r = (1_000_000 + iops - 1) % iops;
        assert(q * iops >= 1_000_000 && (q - 1) * iops < 1_000_000) by (nonlinear_arith)
            requires
                1_000_000 + iops - 1 == iops * q + r,
                0 <= r < iops,
        ;
        assert(t * iops >= q * iops) by (nonlinear_arith)
            requires
                t >= q,
                iops > 0,
        ;
    }
}

/// A card counts what it has done: a write that succeeds counts once, with its bytes.
pub proof fn writes_are_counted(
    m: CardModel,
    operation: u64,
    offset: u64,
    data: Seq<u8>,
    fua: bool,
)
    requires
        m.stats.write_operations < u64::MAX,
        m.stats.write_bytes + data.len() <= u64::MAX,
    ensures
        ({
            let after = after_store(m, operation, offset, data, fua).0;
            &&& after.stats.write_operations == m.stats.write_operations + 1
            &&& after.stats.write_bytes == m.stats.write_bytes + data.len()
            &&& after.stats.operations == m.stats.operations
        }),
{
    let write = WriteModel { offset, data };
    let m1 = CardModel {
        stats: Stats {
            write_operations: plus(m.stats.write_operations, 1),
            write_bytes: plus(m.stats.write_bytes, data.len()),
            ..m.stats
        },
        ..m
    };
    lemma_persisted_counts(m1, seq![write]);
    let (lies, rng) = if fua {
        drawn_chance(m1.rng, m.profile.cache.false_flush_probability_ppm)
    } else {
        (false, m1.rng)
    };
    let m2 = CardModel { rng, ..m1 };
    lemma_persisted_counts(CardModel { pending: Seq::empty(), ..m2 }, m2.pending.push(write));
    let m3 = if fua {
        crate::sd_card::with_fault(
            CardModel {
                stats: Stats { false_flushes: plus(m2.stats.false_flushes, 1), ..m2.stats },
                ..m2
            },
            FaultKind::FalseFua,
            operation,
            offset,
        )
    } else {
        m2
    };
    let full = CardModel { pending: m3.pending.push(write), ..m3 };
    let n = evictions(full.pending, full.profile.cache.max_bytes) as int;
    lemma_persisted_counts(
        CardModel { pending: full.pending.skip(n), ..full },
        full.pending.take(n),
    );
}

proof fn lemma_persisted_counts(m: CardModel, writes: Seq<WriteModel>)
    ensures
        with_persisted(m, writes).stats.write_operations == m.stats.write_operations,
        with_persisted(m, writes).stats.write_bytes == m.stats.write_bytes,
        with_persisted(m, writes).stats.operations == m.stats.operations,
    decreases writes.len(),
{
    if writes.len() > 0 {
        lemma_persisted_counts(m, writes.drop_last());
    }
}

/// The generator never gets stuck: a state that is not zero leads to one that is not, and
/// a number below a limit lies below it.
pub proof fn random_numbers_go_on(state: u64, upper: u64)
    ensures
        state != 0 ==> stepped(state) != 0,
        upper > 0 ==> drawn_below(state, upper).0 < upper,
{
    assert(state != 0 ==> {
        let a = state ^ (state << 13);
        let b = a ^ (a >> 7);
        b ^ (b << 17) != 0
    }) by (bit_vector);
}

/// A profile can be used exactly where its sizes fit each other, no probability is above
/// one, spikes have a range, what becomes of cached writes adds up to no more than one, and
/// blocks warn before they fail.
pub proof fn profiles_are_used_where_they_fit(p: Profile)
    ensures
        profile_fault(p) is None <==> {
            &&& p.schema_version == 1
            &&& !blank(p.name@)
            &&& p.device.size_bytes > 0
            &&& p.device.logical_block_bytes >= 512
            &&& power_of_two(p.device.logical_block_bytes as nat)
            &&& p.device.erase_block_bytes >= p.device.logical_block_bytes
            &&& p.device.erase_block_bytes % p.device.logical_block_bytes == 0
            &&& p.device.size_bytes % p.device.logical_block_bytes == 0
            &&& p.cache.max_bytes <= p.device.size_bytes
            &&& p.read.spike_probability_ppm <= 1_000_000
            &&& p.read.spike_latency_us_min <= p.read.spike_latency_us_max
            &&& p.write.spike_probability_ppm <= 1_000_000
            &&& p.write.spike_latency_us_min <= p.write.spike_latency_us_max
            &&& p.cache.false_flush_probability_ppm <= 1_000_000
            &&& p.cache.power_loss_reorder_probability_ppm <= 1_000_000
            &&& p.cache.power_loss_persist_probability_ppm
                + p.cache.power_loss_torn_probability_ppm <= 1_000_000
            &&& p.wear.worn_eio_probability_ppm <= 1_000_000
            &&& p.faults.eio_probability_ppm <= 1_000_000
            &&& p.faults.torn_write_probability_ppm <= 1_000_000
            &&& p.faults.silent_corruption_probability_ppm <= 1_000_000
            &&& p.wear.enabled ==> p.wear.accelerated_factor > 0 && p.wear.warning_cycles
                < p.wear.failure_cycles
        },
{
}

} // verus!
