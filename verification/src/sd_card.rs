//! A deterministic model of an SD card: a write cache that can lose, tear and
//! reorder writes, blocks that wear out, and faults that come by plan or by chance.
//!
//! The card decides what is to be written to its backing file and when the file is
//! to be synced. It hands these steps out in order; whoever holds the file does
//! them, and tells the card where one fails.
use crate::sd_profile::{IoProfile, Profile};
#[allow(unused_imports)]
use crate::sd_profile::{config_text, power_of_two, profile_fault, says_fault, DeviceProfile};
use crate::sd_random::{torn_length, XorShift64};
#[allow(unused_imports)]
use crate::sd_random::{drawn_below, drawn_chance, drawn_tear, stepped};
use crate::text::put_decimal;
#[allow(unused_imports)]
use crate::text::decimal;
use std::collections::VecDeque;
use vstd::prelude::*;
use vstd::string::*;

verus! {

#[derive(Clone, Copy, Debug, PartialEq, Eq, Structural)]
pub enum DeviceStatus {
    Online,
    ReadOnly,
    Offline,
}

#[derive(Clone, Copy, Debug, PartialEq, Eq, Structural)]
pub enum ErrorCode {
    Io,
    Invalid,
    NoSpace,
    ReadOnly,
    Disconnected,
}

/// The error number that a client is sent.
pub open spec fn errno_of(code: ErrorCode) -> u32 {
    match code {
        ErrorCode::Io => 5,
        ErrorCode::Disconnected => 5,
        ErrorCode::Invalid => 22,
        ErrorCode::NoSpace => 28,
        ErrorCode::ReadOnly => 30,
    }
}

impl ErrorCode {
    /// The error number that a client is sent.
    pub fn errno(self) -> (number: u32)
        ensures
            number == errno_of(self),
    {
        match self {
            ErrorCode::Io => 5,
            ErrorCode::Disconnected => 5,
            ErrorCode::Invalid => 22,
            ErrorCode::NoSpace => 28,
            ErrorCode::ReadOnly => 30,
        }
    }
}

#[derive(Debug, PartialEq, Eq)]
pub struct DeviceError {
    pub code: ErrorCode,
    message: String,
}

/// What a device error holds.
pub struct DeviceFault {
    pub code: ErrorCode,
    pub message: Seq<char>,
}

impl View for DeviceError {
    type V = DeviceFault;

    closed spec fn view(&self) -> DeviceFault {
        DeviceFault { code: self.code, message: self.message@ }
    }
}

impl DeviceError {
    pub fn from_code(code: ErrorCode, message: &str) -> (error: Self)
        ensures
            error@ == (DeviceFault { code, message: message@ }),
    {
        DeviceError { code, message: message.to_owned() }
    }

    /// Whether the device is gone for its client.
    pub fn disconnects(&self) -> (yes: bool)
        ensures
            yes == (self@.code == ErrorCode::Disconnected),
    {
        match self.code {
            ErrorCode::Disconnected => true,
            _ => false,
        }
    }

    /// The kind of the error.
    pub fn error_code(&self) -> (code: ErrorCode)
        ensures
            code == self@.code,
    {
        self.code
    }

    /// What the error says.
    pub fn message(&self) -> (text: &str)
        ensures
            text@ == self@.message,
    {
        self.message.as_str()
    }
}

/// What went wrong last.
#[derive(Clone, Copy, Debug, PartialEq, Eq, Structural)]
pub enum FaultKind {
    BadBlockRead,
    BadBlockWrite,
    TornWrite,
    SilentCorruption,
    FalseFua,
    FalseFlush,
    PowerLoss,
    DeviceDisappeared,
    ScheduledPowerLoss,
    ScheduledDisappearance,
    ScheduledReadOnly,
    RandomEio,
    WearReadOnly,
    WornBlockEio,
}

pub open spec fn fault_name(kind: FaultKind) -> Seq<char> {
    match kind {
        FaultKind::BadBlockRead => "bad_block_read"@,
        FaultKind::BadBlockWrite => "bad_block_write"@,
        FaultKind::TornWrite => "torn_write"@,
        FaultKind::SilentCorruption => "silent_corruption"@,
        FaultKind::FalseFua => "false_fua"@,
        FaultKind::FalseFlush => "false_flush"@,
        FaultKind::PowerLoss => "power_loss"@,
        FaultKind::DeviceDisappeared => "device_disappeared"@,
        FaultKind::ScheduledPowerLoss => "scheduled_power_loss"@,
        FaultKind::ScheduledDisappearance => "scheduled_disappearance"@,
        FaultKind::ScheduledReadOnly => "scheduled_read_only"@,
        FaultKind::RandomEio => "random_eio"@,
        FaultKind::WearReadOnly => "wear_read_only"@,
        FaultKind::WornBlockEio => "worn_block_eio"@,
    }
}

impl FaultKind {
    /// The name under which the fault is reported.
    pub fn name(self) -> (name: &'static str)
        ensures
            name@ == fault_name(self),
    {
        match self {
            FaultKind::BadBlockRead => "bad_block_read",
            FaultKind::BadBlockWrite => "bad_block_write",
            FaultKind::TornWrite => "torn_write",
            FaultKind::SilentCorruption => "silent_corruption",
            FaultKind::FalseFua => "false_fua",
            FaultKind::FalseFlush => "false_flush",
            FaultKind::PowerLoss => "power_loss",
            FaultKind::DeviceDisappeared => "device_disappeared",
            FaultKind::ScheduledPowerLoss => "scheduled_power_loss",
            FaultKind::ScheduledDisappearance => "scheduled_disappearance",
            FaultKind::ScheduledReadOnly => "scheduled_read_only",
            FaultKind::RandomEio => "random_eio",
            FaultKind::WearReadOnly => "wear_read_only",
            FaultKind::WornBlockEio => "worn_block_eio",
        }
    }
}

/// What a card has done so far. A count that has reached its largest value stays
/// there.
#[derive(Clone, Copy, Debug, PartialEq, Eq, Structural)]
pub struct Stats {
    pub operations: u64,
    pub read_operations: u64,
    pub write_operations: u64,
    pub flush_operations: u64,
    pub read_bytes: u64,
    pub write_bytes: u64,
    pub persisted_bytes: u64,
    pub latency_spikes: u64,
    pub injected_eio_operations: u64,
    pub injected_torn_operations: u64,
    pub injected_torn_bytes: u64,
    pub injected_corruptions: u64,
    pub false_flushes: u64,
    pub power_losses: u64,
    pub dropped_operations: u64,
    pub dropped_bytes: u64,
    pub torn_operations: u64,
    pub torn_bytes: u64,
    pub reordered_operations: u64,
    pub erase_operations: u64,
    pub max_erase_count: u64,
    pub bad_blocks: u64,
    pub last_fault_kind: Option<FaultKind>,
    pub last_fault_operation: Option<u64>,
    pub last_fault_offset: Option<u64>,
}

/// A card that has done nothing yet.
pub open spec fn no_stats() -> Stats {
    Stats {
        operations: 0,
        read_operations: 0,
        write_operations: 0,
        flush_operations: 0,
        read_bytes: 0,
        write_bytes: 0,
        persisted_bytes: 0,
        latency_spikes: 0,
        injected_eio_operations: 0,
        injected_torn_operations: 0,
        injected_torn_bytes: 0,
        injected_corruptions: 0,
        false_flushes: 0,
        power_losses: 0,
        dropped_operations: 0,
        dropped_bytes: 0,
        torn_operations: 0,
        torn_bytes: 0,
        reordered_operations: 0,
        erase_operations: 0,
        max_erase_count: 0,
        bad_blocks: 0,
        last_fault_kind: None,
        last_fault_operation: None,
        last_fault_offset: None,
    }
}

/// A write that waits in the cache.
#[derive(Debug)]
pub struct PendingWrite {
    pub offset: u64,
    pub data: Vec<u8>,
}

/// What a write holds.
pub struct WriteModel {
    pub offset: u64,
    pub data: Seq<u8>,
}

impl DeepView for PendingWrite {
    type V = WriteModel;

    open spec fn deep_view(&self) -> WriteModel {
        WriteModel { offset: self.offset, data: self.data@ }
    }
}

/// What a sync of the backing file is for.
#[derive(Clone, Copy, Debug, PartialEq, Eq, Structural)]
pub enum SyncPoint {
    TornWrite,
    FuaWrite,
    Write,
    Flush,
    PowerLoss,
    EvictedCache,
}

impl SyncPoint {
    /// What is said where the sync fails.
    pub fn context(self) -> (text: &'static str)
        ensures
            text@ == match self {
                SyncPoint::TornWrite => "sync torn write"@,
                SyncPoint::FuaWrite => "sync FUA write"@,
                SyncPoint::Write => "sync write"@,
                SyncPoint::Flush => "flush backing file"@,
                SyncPoint::PowerLoss => "sync power-loss outcome"@,
                SyncPoint::EvictedCache => "sync evicted cache"@,
            },
    {
        match self {
            SyncPoint::TornWrite => "sync torn write",
            SyncPoint::FuaWrite => "sync FUA write",
            SyncPoint::Write => "sync write",
            SyncPoint::Flush => "flush backing file",
            SyncPoint::PowerLoss => "sync power-loss outcome",
            SyncPoint::EvictedCache => "sync evicted cache",
        }
    }
}

/// Something to do to the backing file.
#[derive(Debug)]
pub enum BackingStep {
    Write(PendingWrite),
    Sync(SyncPoint),
}

/// What a step does.
pub enum StepModel {
    Write(WriteModel),
    Sync(SyncPoint),
}

impl DeepView for BackingStep {
    type V = StepModel;

    open spec fn deep_view(&self) -> StepModel {
        match *self {
            BackingStep::Write(write) => StepModel::Write(write.deep_view()),
            BackingStep::Sync(point) => StepModel::Sync(point),
        }
    }
}

/// A sum that stops at the largest count.
pub open spec fn plus(a: u64, b: nat) -> u64 {
    if a + b > u64::MAX {
        u64::MAX
    } else {
        (a + b) as u64
    }
}

/// The state of a card.
#[verifier::ext_equal]
pub struct CardModel {
    pub profile: Profile,
    pub rng: u64,
    pub pending: Seq<WriteModel>,
    pub wear: Seq<u64>,
    pub bad: Seq<bool>,
    pub status: DeviceStatus,
    pub generation: u64,
    pub stats: Stats,
}

/// How many erase blocks a device has.
pub open spec fn erase_blocks(d: DeviceProfile) -> int {
    (d.size_bytes + d.erase_block_bytes - 1) / d.erase_block_bytes as int
}

/// Whether the profile is valid, there is a record of each erase block, and nothing
/// waits in a cache that is switched off.
pub open spec fn sound_card(m: CardModel) -> bool {
    &&& !m.profile.cache.enabled ==> m.pending.len() == 0
    &&& profile_fault(m.profile) is None
    &&& m.wear.len() == erase_blocks(m.profile.device)
    &&& m.bad.len() == erase_blocks(m.profile.device)
}

/// A card that has just been opened.
pub open spec fn fresh_card(profile: Profile, seed: u64) -> CardModel {
    CardModel {
        profile,
        rng: if seed == 0 {
            1
        } else {
            seed
        },
        pending: Seq::empty(),
        wear: Seq::new(erase_blocks(profile.device) as nat, |i: int| 0u64),
        bad: Seq::new(erase_blocks(profile.device) as nat, |i: int| false),
        status: DeviceStatus::Online,
        generation: 0,
        stats: no_stats(),
    }
}

pub open spec fn with_fault(m: CardModel, kind: FaultKind, operation: u64, offset: u64) -> CardModel {
    CardModel {
        stats: Stats {
            last_fault_kind: Some(kind),
            last_fault_operation: Some(operation),
            last_fault_offset: Some(offset),
            ..m.stats
        },
        ..m
    }
}

/// A card that has failed an operation on purpose.
pub open spec fn with_injected(m: CardModel, kind: FaultKind, offset: u64) -> CardModel {
    with_fault(
        CardModel {
            stats: Stats {
                injected_eio_operations: plus(m.stats.injected_eio_operations, 1),
                ..m.stats
            },
            ..m
        },
        kind,
        m.stats.operations,
        offset,
    )
}

pub open spec fn injected(kind: FaultKind) -> DeviceFault {
    DeviceFault { code: ErrorCode::Io, message: "injected "@ + fault_name(kind) }
}

/// Why a request does not lie on the device, if it does not.
pub open spec fn range_fault(m: CardModel, offset: u64, length: nat) -> Option<DeviceFault> {
    if offset + length > u64::MAX {
        Some(DeviceFault { code: ErrorCode::Invalid, message: "request range overflows u64"@ })
    } else if offset + length > m.profile.device.size_bytes {
        Some(
            DeviceFault {
                code: ErrorCode::NoSpace,
                message: "request ends at "@ + decimal((offset + length) as nat)
                    + ", past device size "@ + decimal(m.profile.device.size_bytes as nat),
            },
        )
    } else {
        None
    }
}

pub open spec fn first_block(m: CardModel, offset: u64) -> int {
    offset as int / m.profile.device.erase_block_bytes as int
}

pub open spec fn last_block(m: CardModel, offset: u64, length: nat) -> int {
    (offset + length - 1) / m.profile.device.erase_block_bytes as int
}

/// Whether a request touches a block that has failed.
pub open spec fn touches_bad(m: CardModel, offset: u64, length: nat) -> bool {
    length > 0 && exists|b: int|
        first_block(m, offset) <= b <= last_block(m, offset, length) && #[trigger] m.bad[b]
}

/// A card after writes have gone to the backing file.
pub open spec fn with_persisted(m: CardModel, writes: Seq<WriteModel>) -> CardModel
    decreases writes.len(),
{
    if writes.len() == 0 {
        m
    } else {
        let before = with_persisted(m, writes.drop_last());
        CardModel {
            stats: Stats {
                persisted_bytes: plus(before.stats.persisted_bytes, writes.last().data.len()),
                ..before.stats
            },
            ..before
        }
    }
}

/// The steps that put writes into the backing file.
pub open spec fn write_steps(writes: Seq<WriteModel>) -> Seq<StepModel> {
    Seq::new(writes.len(), |i: int| StepModel::Write(writes[i]))
}

/// What a power cut makes of the writes in the cache: each is kept, torn or lost.
/// Torn writes land at once.
pub open spec fn cut_writes(m: CardModel, list: Seq<WriteModel>) -> (
    CardModel,
    Seq<WriteModel>,
    Seq<StepModel>,
)
    decreases list.len(),
{
    if list.len() == 0 {
        (m, Seq::empty(), Seq::empty())
    } else {
        let (m1, kept, steps) = cut_writes(m, list.drop_last());
        let write = list.last();
        let (roll, rng) = drawn_below(m1.rng, 1_000_000);
        let m2 = CardModel { rng, ..m1 };
        let persist = m.profile.cache.power_loss_persist_probability_ppm;
        let torn = m.profile.cache.power_loss_torn_probability_ppm;
        if roll < persist {
            (m2, kept.push(write), steps)
        } else if roll < persist + torn {
            let (length, rng2) = drawn_tear(rng, write.data.len());
            let landed = WriteModel { offset: write.offset, data: write.data.take(length as int) };
            let m3 = CardModel { rng: rng2, ..m2 };
            let m4 = if length != 0 {
                with_persisted(m3, seq![landed])
            } else {
                m3
            };
            (
                CardModel {
                    stats: Stats {
                        torn_operations: plus(m4.stats.torn_operations, 1),
                        torn_bytes: plus(m4.stats.torn_bytes, length),
                        dropped_bytes: plus(
                            m4.stats.dropped_bytes,
                            (write.data.len() - length) as nat,
                        ),
                        last_fault_offset: Some(plus(write.offset, length)),
                        ..m4.stats
                    },
                    ..m4
                },
                kept,
                if length != 0 {
                    steps.push(StepModel::Write(landed))
                } else {
                    steps
                },
            )
        } else {
            (
                CardModel {
                    stats: Stats {
                        dropped_operations: plus(m2.stats.dropped_operations, 1),
                        dropped_bytes: plus(m2.stats.dropped_bytes, write.data.len()),
                        ..m2.stats
                    },
                    ..m2
                },
                kept,
                steps,
            )
        }
    }
}

/// What a card goes back to where a step for the backing file fails. `cached` is how
/// many writes wait in the cache then.
#[derive(Clone, Copy, Debug)]
pub struct Setback {
    pub rng: u64,
    pub status: DeviceStatus,
    pub generation: u64,
    pub stats: Stats,
    pub cached: usize,
}

/// A card as it stands, to go back to.
pub open spec fn setback_to(m: CardModel) -> Setback {
    Setback {
        rng: m.rng,
        status: m.status,
        generation: m.generation,
        stats: m.stats,
        cached: m.pending.len() as usize,
    }
}

/// What each of some writes goes back to: the card with the earlier ones persisted.
pub open spec fn write_setbacks(m: CardModel, writes: Seq<WriteModel>) -> Seq<Setback> {
    Seq::new(writes.len(), |i: int| setback_to(with_persisted(m, writes.take(i))))
}

/// What the torn writes of a power cut go back to: the card as it stood before each
/// landed, with what befell the writes before it.
pub open spec fn cut_setbacks(m: CardModel, list: Seq<WriteModel>) -> Seq<Setback>
    decreases list.len(),
{
    if list.len() == 0 {
        Seq::empty()
    } else {
        let before = cut_setbacks(m, list.drop_last());
        let m1 = cut_writes(m, list.drop_last()).0;
        let (roll, rng) = drawn_below(m1.rng, 1_000_000);
        let (length, rng2) = drawn_tear(rng, list.last().data.len());
        let persist = m.profile.cache.power_loss_persist_probability_ppm;
        let torn = m.profile.cache.power_loss_torn_probability_ppm;
        if persist <= roll < persist + torn && length != 0 {
            before.push(setback_to(CardModel { rng: rng2, ..m1 }))
        } else {
            before
        }
    }
}

/// A list with two of its members in each other's place.
pub open spec fn swapped(list: Seq<WriteModel>, i: int, j: int) -> Seq<WriteModel> {
    list.update(i, list[j]).update(j, list[i])
}

/// A list in random order: from the last place down to the second, each member
/// changes places with one at or before it.
pub open spec fn shuffled(list: Seq<WriteModel>, rng: u64, from: nat) -> (Seq<WriteModel>, u64)
    decreases from,
{
    if from == 0 {
        (list, rng)
    } else {
        let (other, next) = drawn_below(rng, (from + 1) as u64);
        shuffled(swapped(list, from as int, other as int), next, (from - 1) as nat)
    }
}

/// A card whose power is cut once the fate of each cached write is decided, with the
/// writes that are kept, in the order in which they are to land.
pub open spec fn power_cut(m: CardModel) -> (CardModel, Seq<WriteModel>) {
    let (m1, kept, _) = cut_writes(CardModel { pending: Seq::empty(), ..m }, m.pending);
    let (reorder, rng) = if kept.len() > 1 {
        drawn_chance(m1.rng, m.profile.cache.power_loss_reorder_probability_ppm)
    } else {
        (false, m1.rng)
    };
    let (order, rng2) = if reorder {
        shuffled(kept, rng, (kept.len() - 1) as nat)
    } else {
        (kept, rng)
    };
    (
        CardModel {
            rng: rng2,
            stats: Stats {
                reordered_operations: if reorder {
                    plus(m1.stats.reordered_operations, kept.len())
                } else {
                    m1.stats.reordered_operations
                },
                ..m1.stats
            },
            ..m1
        },
        order,
    )
}

/// A card and its steps after the power is cut.
pub open spec fn after_power_loss(m: CardModel, kind: FaultKind) -> (CardModel, Seq<StepModel>) {
    let steps = cut_writes(CardModel { pending: Seq::empty(), ..m }, m.pending).2;
    let (m1, order) = power_cut(m);
    let m2 = with_persisted(m1, order);
    let m3 = CardModel {
        status: DeviceStatus::Offline,
        generation: wrapped(m2.generation),
        stats: Stats { power_losses: plus(m2.stats.power_losses, 1), ..m2.stats },
        ..m2
    };
    (
        with_fault(
            m3,
            kind,
            m.stats.operations,
            match m3.stats.last_fault_offset {
                Some(offset) => offset,
                None => 0,
            },
        ),
        steps + write_steps(order) + seq![StepModel::Sync(SyncPoint::PowerLoss)],
    )
}

/// What the steps of a power cut go back to: the power is still on.
pub open spec fn power_loss_setbacks(m: CardModel) -> Seq<Setback> {
    let (m1, order) = power_cut(m);
    cut_setbacks(CardModel { pending: Seq::empty(), ..m }, m.pending) + write_setbacks(
        m1,
        order,
    ).push(setback_to(with_persisted(m1, order)))
}

/// The next generation; the last is followed by the first.
pub open spec fn wrapped(generation: u64) -> u64 {
    if generation == u64::MAX {
        0
    } else {
        (generation + 1) as u64
    }
}

/// A card after an operation has begun, with the number of the operation or the
/// reason why it fails.
pub open spec fn after_begin(m: CardModel, offset: u64) -> (
    CardModel,
    Seq<StepModel>,
    Result<u64, DeviceFault>,
) {
    if m.status == DeviceStatus::Offline {
        (
            m,
            Seq::empty(),
            Err(DeviceFault { code: ErrorCode::Disconnected, message: "device is offline"@ }),
        )
    } else {
        let operation = plus(m.stats.operations, 1);
        let m1 = CardModel { stats: Stats { operations: operation, ..m.stats }, ..m };
        if m.profile.faults.power_loss_after_ops == Some(operation) {
            let (m2, steps) = after_power_loss(m1, FaultKind::ScheduledPowerLoss);
            (
                m2,
                steps,
                Err(DeviceFault { code: ErrorCode::Disconnected, message: "scheduled power loss"@ }),
            )
        } else if m.profile.faults.disappear_after_ops == Some(operation) {
            let (m2, steps) = after_power_loss(m1, FaultKind::ScheduledDisappearance);
            (
                m2,
                steps,
                Err(
                    DeviceFault {
                        code: ErrorCode::Disconnected,
                        message: "scheduled device disappearance"@,
                    },
                ),
            )
        } else {
            let m2 = if m.profile.faults.read_only_after_ops == Some(operation) {
                with_fault(
                    CardModel { status: DeviceStatus::ReadOnly, ..m1 },
                    FaultKind::ScheduledReadOnly,
                    operation,
                    offset,
                )
            } else {
                m1
            };
            let (fails, rng) = drawn_chance(m2.rng, m.profile.faults.eio_probability_ppm);
            let m3 = CardModel { rng, ..m2 };
            if fails {
                (
                    with_injected(m3, FaultKind::RandomEio, offset),
                    Seq::empty(),
                    Err(injected(FaultKind::RandomEio)),
                )
            } else {
                (m3, Seq::empty(), Ok(operation))
            }
        }
    }
}

pub open spec fn io_profile(m: CardModel, write: bool) -> IoProfile {
    if write {
        m.profile.write
    } else {
        m.profile.read
    }
}

/// A card after it has chosen how long an operation takes, and the latency in
/// microseconds.
pub open spec fn after_wait(m: CardModel, write: bool) -> (CardModel, u64) {
    let io = io_profile(m, write);
    let (jitter, rng1) = drawn_below(m.rng, plus(io.jitter_latency_us, 1));
    let base = plus(io.base_latency_us, jitter as nat);
    let (spike, rng2) = drawn_chance(rng1, io.spike_probability_ppm);
    let width = plus(
        if io.spike_latency_us_max > io.spike_latency_us_min {
            (io.spike_latency_us_max - io.spike_latency_us_min) as u64
        } else {
            0
        },
        1,
    );
    let (extra, rng3) = drawn_below(rng2, width);
    let m1 = CardModel {
        rng: if spike {
            rng3
        } else {
            rng2
        },
        stats: Stats {
            latency_spikes: if spike {
                plus(m.stats.latency_spikes, 1)
            } else {
                m.stats.latency_spikes
            },
            ..m.stats
        },
        ..m
    };
    let spiked = if spike {
        plus(base, plus(io.spike_latency_us_min, extra as nat) as nat)
    } else {
        base
    };
    let worn = m.profile.wear.enabled && m.stats.max_erase_count >= m.profile.wear.warning_cycles;
    (
        m1,
        if worn {
            plus(spiked, plus(0, (io.base_latency_us * 4) as nat) as nat)
        } else {
            spiked
        },
    )
}

/// A card after `n` blocks from `first` on have been erased once more.
pub open spec fn after_erase(m: CardModel, first: int, n: nat) -> CardModel
    decreases n,
{
    if n == 0 {
        m
    } else {
        let before = after_erase(m, first, (n - 1) as nat);
        let block = first + n - 1;
        let factor = m.profile.wear.accelerated_factor;
        let count = plus(before.wear[block], factor as nat);
        let fails = count >= m.profile.wear.failure_cycles && !before.bad[block];
        CardModel {
            wear: before.wear.update(block, count),
            bad: if fails {
                before.bad.update(block, true)
            } else {
                before.bad
            },
            stats: Stats {
                erase_operations: plus(before.stats.erase_operations, factor as nat),
                max_erase_count: if count > before.stats.max_erase_count {
                    count
                } else {
                    before.stats.max_erase_count
                },
                bad_blocks: if fails {
                    plus(before.stats.bad_blocks, 1)
                } else {
                    before.stats.bad_blocks
                },
                ..before.stats
            },
            ..before
        }
    }
}

/// A card after a write has worn its blocks, and why the write then fails, if it
/// does.
pub open spec fn after_wear(m: CardModel, offset: u64, length: nat) -> (
    CardModel,
    Option<DeviceFault>,
) {
    if !m.profile.wear.enabled || length == 0 {
        (m, None)
    } else {
        let first = first_block(m, offset);
        let m1 = after_erase(m, first, (last_block(m, offset, length) - first + 1) as nat);
        let limit = m.profile.wear.read_only_after_bad_blocks;
        if m1.stats.bad_blocks >= limit && limit != 0 {
            (
                with_fault(
                    CardModel { status: DeviceStatus::ReadOnly, ..m1 },
                    FaultKind::WearReadOnly,
                    m1.stats.operations,
                    offset,
                ),
                Some(
                    DeviceFault {
                        code: ErrorCode::ReadOnly,
                        message: "wear threshold made the device read-only"@,
                    },
                ),
            )
        } else if m1.stats.max_erase_count >= m.profile.wear.warning_cycles {
            let (fails, rng) = drawn_chance(m1.rng, m.profile.wear.worn_eio_probability_ppm);
            let m2 = CardModel { rng, ..m1 };
            if fails {
                (
                    with_injected(m2, FaultKind::WornBlockEio, offset),
                    Some(injected(FaultKind::WornBlockEio)),
                )
            } else {
                (m2, None)
            }
        } else {
            (m1, None)
        }
    }
}

/// How many bytes wait in the cache.
pub open spec fn cached_bytes(pending: Seq<WriteModel>) -> u64
    decreases pending.len(),
{
    if pending.len() == 0 {
        0
    } else {
        plus(cached_bytes(pending.drop_last()), pending.last().data.len())
    }
}

/// How many of the oldest writes leave a cache of `max` bytes.
pub open spec fn evictions(pending: Seq<WriteModel>, max: u64) -> nat
    decreases pending.len(),
{
    if pending.len() > 0 && cached_bytes(pending) > max {
        1 + evictions(pending.skip(1), max)
    } else {
        0
    }
}

/// A card after its cache has been cut down to size.
pub open spec fn after_evict(m: CardModel) -> (CardModel, Seq<StepModel>) {
    let n = evictions(m.pending, m.profile.cache.max_bytes) as int;
    let out = m.pending.take(n);
    (
        with_persisted(CardModel { pending: m.pending.skip(n), ..m }, out),
        if n > 0 {
            write_steps(out).push(StepModel::Sync(SyncPoint::EvictedCache))
        } else {
            Seq::empty()
        },
    )
}

/// What the steps of an eviction go back to: the write that fails has left the cache,
/// those behind it have not.
pub open spec fn evict_setbacks(m: CardModel) -> Seq<Setback> {
    let n = evictions(m.pending, m.profile.cache.max_bytes);
    if n > 0 {
        Seq::new(
            n,
            |i: int|
                setback_to(
                    with_persisted(
                        CardModel { pending: m.pending.skip(i + 1), ..m },
                        m.pending.take(i),
                    ),
                ),
        ).push(setback_to(after_evict(m).0))
    } else {
        Seq::empty()
    }
}

/// The bytes of a write after a bit has been flipped by chance.
pub open spec fn after_corruption(m: CardModel, operation: u64, offset: u64, data: Seq<u8>) -> (
    CardModel,
    Seq<u8>,
) {
    let (hit, rng1) = drawn_chance(m.rng, m.profile.faults.silent_corruption_probability_ppm);
    let m1 = CardModel { rng: rng1, ..m };
    if hit && data.len() > 0 {
        let (index, rng2) = drawn_below(rng1, data.len() as u64);
        let (bit, rng3) = drawn_below(rng2, 8);
        (
            with_fault(
                CardModel {
                    rng: rng3,
                    stats: Stats {
                        injected_corruptions: plus(m1.stats.injected_corruptions, 1),
                        ..m1.stats
                    },
                    ..m1
                },
                FaultKind::SilentCorruption,
                operation,
                plus(offset, index as nat),
            ),
            data.update(index as int, data[index as int] ^ (1u8 << (bit as u8))),
        )
    } else {
        (m1, data)
    }
}

/// A card after data has been put into its cache or its backing file.
pub open spec fn after_store(
    m: CardModel,
    operation: u64,
    offset: u64,
    data: Seq<u8>,
    fua: bool,
) -> (CardModel, Seq<StepModel>) {
    let write = WriteModel { offset, data };
    let m1 = CardModel {
        stats: Stats {
            write_operations: plus(m.stats.write_operations, 1),
            write_bytes: plus(m.stats.write_bytes, data.len()),
            ..m.stats
        },
        ..m
    };
    if m.profile.cache.enabled {
        let (lies, rng) = if fua {
            drawn_chance(m1.rng, m.profile.cache.false_flush_probability_ppm)
        } else {
            (false, m1.rng)
        };
        let m2 = CardModel { rng, ..m1 };
        if fua && !lies {
            let writes = m2.pending.push(write);
            (
                with_persisted(CardModel { pending: Seq::empty(), ..m2 }, writes),
                write_steps(writes).push(StepModel::Sync(SyncPoint::FuaWrite)),
            )
        } else {
            let m3 = if fua {
                with_fault(
                    CardModel {
                        stats: Stats {
                            false_flushes: plus(m2.stats.false_flushes, 1),
                            ..m2.stats
                        },
                        ..m2
                    },
                    FaultKind::FalseFua,
                    operation,
                    offset,
                )
            } else {
                m2
            };
            after_evict(CardModel { pending: m3.pending.push(write), ..m3 })
        }
    } else {
        (
            with_persisted(m1, seq![write]),
            write_steps(seq![write]).push(StepModel::Sync(SyncPoint::Write)),
        )
    }
}

/// What the steps go back to that put data into the cache or the backing file.
pub open spec fn store_setbacks(
    m: CardModel,
    operation: u64,
    offset: u64,
    data: Seq<u8>,
    fua: bool,
) -> Seq<Setback> {
    let write = WriteModel { offset, data };
    let m1 = CardModel {
        stats: Stats {
            write_operations: plus(m.stats.write_operations, 1),
            write_bytes: plus(m.stats.write_bytes, data.len()),
            ..m.stats
        },
        ..m
    };
    if m.profile.cache.enabled {
        let (lies, rng) = if fua {
            drawn_chance(m1.rng, m.profile.cache.false_flush_probability_ppm)
        } else {
            (false, m1.rng)
        };
        let m2 = CardModel { rng, ..m1 };
        if fua && !lies {
            let taken = CardModel { pending: Seq::empty(), ..m2 };
            let writes = m2.pending.push(write);
            write_setbacks(taken, writes).push(setback_to(with_persisted(taken, writes)))
        } else {
            let m3 = if fua {
                with_fault(
                    CardModel {
                        stats: Stats {
                            false_flushes: plus(m2.stats.false_flushes, 1),
                            ..m2.stats
                        },
                        ..m2
                    },
                    FaultKind::FalseFua,
                    operation,
                    offset,
                )
            } else {
                m2
            };
            evict_setbacks(CardModel { pending: m3.pending.push(write), ..m3 })
        }
    } else {
        seq![setback_to(m1), setback_to(with_persisted(m1, seq![write]))]
    }
}

/// A card after a write that has passed all checks: it may be torn or corrupted by
/// chance.
pub open spec fn after_transfer(
    m: CardModel,
    operation: u64,
    offset: u64,
    data: Seq<u8>,
    fua: bool,
) -> (CardModel, Seq<StepModel>, Option<DeviceFault>) {
    let (torn, rng1) = drawn_chance(m.rng, m.profile.faults.torn_write_probability_ppm);
    let m1 = CardModel { rng: rng1, ..m };
    if torn {
        let (length, rng2) = drawn_tear(rng1, data.len());
        let landed = WriteModel { offset, data: data.take(length as int) };
        let m2 = with_persisted(CardModel { rng: rng2, ..m1 }, seq![landed]);
        (
            with_fault(
                CardModel {
                    stats: Stats {
                        injected_torn_operations: plus(m2.stats.injected_torn_operations, 1),
                        injected_torn_bytes: plus(m2.stats.injected_torn_bytes, length),
                        ..m2.stats
                    },
                    ..m2
                },
                FaultKind::TornWrite,
                operation,
                plus(offset, length),
            ),
            write_steps(seq![landed]).push(StepModel::Sync(SyncPoint::TornWrite)),
            Some(
                DeviceFault { code: ErrorCode::Io, message: "injected torn write returned EIO"@ },
            ),
        )
    } else {
        let (m2, stored) = after_corruption(m1, operation, offset, data);
        let (m3, steps) = after_store(m2, operation, offset, stored, fua);
        (m3, steps, None)
    }
}

/// What the steps of a write that has passed all checks go back to.
pub open spec fn transfer_setbacks(
    m: CardModel,
    operation: u64,
    offset: u64,
    data: Seq<u8>,
    fua: bool,
) -> Seq<Setback> {
    let (torn, rng1) = drawn_chance(m.rng, m.profile.faults.torn_write_probability_ppm);
    let m1 = CardModel { rng: rng1, ..m };
    if torn {
        let (length, rng2) = drawn_tear(rng1, data.len());
        let landed = WriteModel { offset, data: data.take(length as int) };
        let m2 = CardModel { rng: rng2, ..m1 };
        seq![setback_to(m2), setback_to(with_persisted(m2, seq![landed]))]
    } else {
        let (m2, stored) = after_corruption(m1, operation, offset, data);
        store_setbacks(m2, operation, offset, stored, fua)
    }
}

/// What the steps go back to that come where an operation begins.
pub open spec fn begin_setbacks(m: CardModel) -> Seq<Setback> {
    let operation = plus(m.stats.operations, 1);
    if m.status != DeviceStatus::Offline && (m.profile.faults.power_loss_after_ops == Some(
        operation,
    ) || m.profile.faults.disappear_after_ops == Some(operation)) {
        power_loss_setbacks(
            CardModel { stats: Stats { operations: operation, ..m.stats }, ..m },
        )
    } else {
        Seq::empty()
    }
}

/// What the steps of a write go back to.
pub open spec fn written_setbacks(m: CardModel, offset: u64, data: Seq<u8>, fua: bool) -> Seq<
    Setback,
> {
    if range_fault(m, offset, data.len()) is Some {
        Seq::empty()
    } else {
        let (m1, _, begun) = after_begin(m, offset);
        match begun {
            Err(_) => begin_setbacks(m),
            Ok(operation) => {
                let m2 = after_wait(m1, true).0;
                let (m3, worn) = after_wear(m2, offset, data.len());
                if m1.status == DeviceStatus::ReadOnly || touches_bad(m1, offset, data.len())
                    || worn is Some {
                    Seq::empty()
                } else {
                    transfer_setbacks(m3, operation, offset, data, fua)
                }
            },
        }
    }
}

/// What the steps of a read go back to.
pub open spec fn read_setbacks(m: CardModel, offset: u64, length: nat) -> Seq<Setback> {
    if range_fault(m, offset, length) is Some {
        Seq::empty()
    } else {
        begin_setbacks(m)
    }
}

/// What the steps of a flush go back to.
pub open spec fn flush_setbacks(m: CardModel) -> Seq<Setback> {
    let (m1, _, begun) = after_begin(m, 0);
    match begun {
        Err(_) => begin_setbacks(m),
        Ok(_) => {
            let m2 = after_wait(m1, true).0;
            let m3 = CardModel {
                stats: Stats { flush_operations: plus(m2.stats.flush_operations, 1), ..m2.stats },
                ..m2
            };
            let (lies, rng) = drawn_chance(m3.rng, m.profile.cache.false_flush_probability_ppm);
            if lies {
                Seq::empty()
            } else {
                let taken = CardModel { rng, pending: Seq::empty(), ..m3 };
                write_setbacks(taken, m3.pending).push(
                    setback_to(with_persisted(taken, m3.pending)),
                )
            }
        },
    }
}

/// The writes that stand first among some steps, `n` at most.
pub open spec fn first_writes(steps: Seq<StepModel>, n: nat) -> Seq<WriteModel>
    decreases steps.len(),
{
    if n == 0 || steps.len() == 0 {
        Seq::empty()
    } else {
        match steps[0] {
            StepModel::Write(write) => seq![write] + first_writes(
                steps.skip(1),
                (n - 1) as nat,
            ),
            StepModel::Sync(_) => Seq::empty(),
        }
    }
}

/// A card after one of its steps has failed, where `rest` are the steps behind it. It
/// goes back to where that step began. Of the writes that were not carried out, those
/// that had not left the cache then wait in it again.
pub open spec fn set_back(m: CardModel, to: Setback, rest: Seq<StepModel>) -> CardModel {
    let n = if m.profile.cache.enabled && to.cached > m.pending.len() {
        (to.cached - m.pending.len()) as nat
    } else {
        0
    };
    CardModel {
        rng: to.rng,
        status: to.status,
        generation: to.generation,
        stats: to.stats,
        pending: first_writes(rest, n) + m.pending,
        ..m
    }
}

/// What an operation does: the card behind it, the steps for the backing file, the
/// latency that it waits for, if it comes that far, and why it fails, if it does.
pub struct Effects {
    pub card: CardModel,
    pub steps: Seq<StepModel>,
    pub latency: Option<u64>,
    pub fault: Option<DeviceFault>,
}

pub open spec fn failed(card: CardModel, steps: Seq<StepModel>, fault: DeviceFault) -> Effects {
    Effects { card, steps, latency: None, fault: Some(fault) }
}

/// What a write does.
pub open spec fn write_effects(m: CardModel, offset: u64, data: Seq<u8>, fua: bool) -> Effects {
    match range_fault(m, offset, data.len()) {
        Some(fault) => failed(m, Seq::empty(), fault),
        None => {
            let (m1, steps, begun) = after_begin(m, offset);
            match begun {
                Err(fault) => failed(m1, steps, fault),
                Ok(operation) => if m1.status == DeviceStatus::ReadOnly {
                    failed(
                        m1,
                        steps,
                        DeviceFault { code: ErrorCode::ReadOnly, message: "device is read-only"@ },
                    )
                } else if touches_bad(m1, offset, data.len()) {
                    failed(
                        with_injected(m1, FaultKind::BadBlockWrite, offset),
                        steps,
                        injected(FaultKind::BadBlockWrite),
                    )
                } else {
                    let (m2, latency) = after_wait(m1, true);
                    let (m3, worn) = after_wear(m2, offset, data.len());
                    match worn {
                        Some(fault) => Effects {
                            card: m3,
                            steps,
                            latency: Some(latency),
                            fault: Some(fault),
                        },
                        None => {
                            let (m4, more, fault) = after_transfer(
                                m3,
                                operation,
                                offset,
                                data,
                                fua,
                            );
                            Effects { card: m4, steps: more, latency: Some(latency), fault }
                        },
                    }
                },
            }
        },
    }
}

/// What the start of a read does; the data are read from the backing file then.
pub open spec fn read_effects(m: CardModel, offset: u64, length: nat) -> Effects {
    match range_fault(m, offset, length) {
        Some(fault) => failed(m, Seq::empty(), fault),
        None => {
            let (m1, steps, begun) = after_begin(m, offset);
            match begun {
                Err(fault) => failed(m1, steps, fault),
                Ok(_) => if touches_bad(m1, offset, length) {
                    failed(
                        with_injected(m1, FaultKind::BadBlockRead, offset),
                        steps,
                        injected(FaultKind::BadBlockRead),
                    )
                } else {
                    let (m2, latency) = after_wait(m1, false);
                    Effects { card: m2, steps, latency: Some(latency), fault: None }
                },
            }
        },
    }
}

/// What a flush does.
pub open spec fn flush_effects(m: CardModel) -> Effects {
    let (m1, steps, begun) = after_begin(m, 0);
    match begun {
        Err(fault) => failed(m1, steps, fault),
        Ok(operation) => {
            let (m2, latency) = after_wait(m1, true);
            let m3 = CardModel {
                stats: Stats { flush_operations: plus(m2.stats.flush_operations, 1), ..m2.stats },
                ..m2
            };
            let (lies, rng) = drawn_chance(m3.rng, m.profile.cache.false_flush_probability_ppm);
            let m4 = CardModel { rng, ..m3 };
            if lies {
                Effects {
                    card: with_fault(
                        CardModel {
                            stats: Stats {
                                false_flushes: plus(m4.stats.false_flushes, 1),
                                ..m4.stats
                            },
                            ..m4
                        },
                        FaultKind::FalseFlush,
                        operation,
                        0,
                    ),
                    steps: Seq::empty(),
                    latency: Some(latency),
                    fault: None,
                }
            } else {
                Effects {
                    card: with_persisted(CardModel { pending: Seq::empty(), ..m4 }, m4.pending),
                    steps: write_steps(m4.pending).push(StepModel::Sync(SyncPoint::Flush)),
                    latency: Some(latency),
                    fault: None,
                }
            }
        },
    }
}

/// The models of the steps in a list.
pub open spec fn step_models(steps: Seq<BackingStep>) -> Seq<StepModel> {
    Seq::new(steps.len(), |i: int| steps[i].deep_view())
}

pub open spec fn write_models(writes: Seq<PendingWrite>) -> Seq<WriteModel> {
    Seq::new(writes.len(), |i: int| writes[i].deep_view())
}

/// What an operation asks for: the steps for the backing file in order, the latency
/// to wait for, if it comes that far, and the answer to the client.
#[derive(Debug)]
pub struct CardAction {
    pub steps: Vec<BackingStep>,
    pub latency_us: Option<u64>,
    pub outcome: Result<(), DeviceError>,
}

/// Whether an answer carries a fault, if there is one.
pub open spec fn answers(outcome: Result<(), DeviceError>, fault: Option<DeviceFault>) -> bool {
    match fault {
        Some(f) => outcome matches Err(error) && error@ == f,
        None => outcome is Ok,
    }
}

/// Whether an action and the card behind it are the effects of an operation.
pub open spec fn carries_out(action: CardAction, card: CardModel, effects: Effects) -> bool {
    &&& card == effects.card
    &&& step_models(action.steps@) == effects.steps
    &&& action.latency_us == effects.latency
    &&& answers(action.outcome, effects.fault)
}

fn failure(steps: Vec<BackingStep>, error: DeviceError) -> (action: CardAction)
    ensures
        action.steps == steps,
        action.latency_us is None,
        answers(action.outcome, Some(error@)),
{
    CardAction { steps, latency_us: None, outcome: Err(error) }
}

fn push_step(steps: &mut Vec<BackingStep>, step: BackingStep)
    ensures
        step_models(final(steps)@) == step_models(old(steps)@).push(step.deep_view()),
{
    let ghost before = step_models(steps@);
    let ghost added = step.deep_view();
    steps.push(step);
    assert(step_models(steps@) =~= before.push(added));
}

/// The writes that stand first among some steps, `n` at most.
fn first_pending(steps: Vec<BackingStep>, n: usize) -> (out: VecDeque<PendingWrite>)
    ensures
        write_models(out@) == first_writes(step_models(steps@), n as nat),
{
    let ghost all = step_models(steps@);
    let mut out: VecDeque<PendingWrite> = VecDeque::new();
    let mut steps = steps;
    assert(write_models(out@) =~= Seq::<WriteModel>::empty());
    assert(step_models(steps@) =~= all.take(all.len() as int));
    while steps.len() > 0
        invariant
            steps@.len() <= all.len(),
            step_models(steps@) == all.take(steps@.len() as int),
            write_models(out@) == first_writes(
                all.skip(steps@.len() as int),
                if n > steps@.len() {
                    (n - steps@.len()) as nat
                } else {
                    0
                },
            ),
        decreases steps@.len(),
    {
        let ghost held = steps@;
        let ghost later = write_models(out@);
        let at: usize = steps.len() - 1;
        let step = steps.pop();
        proof {
            assert(step_models(held)[at as int] == all[at as int]);
            assert forall|k: int| 0 <= k < at implies #[trigger] step_models(steps@)[k]
                == all.take(at as int)[k] by {
                assert(step_models(held)[k] == all[k]);
            }
            assert(step_models(steps@) =~= all.take(at as int));
            assert(all.skip(at as int).skip(1) =~= all.skip(at + 1));
            assert(all.skip(at as int)[0] == all[at as int]);
        }
        if at < n {
            match step {
                Some(BackingStep::Write(write)) => {
                    let ghost one = write.deep_view();
                    out.push_front(write);
                    assert(write_models(out@) =~= seq![one] + later);
                },
                _ => {
                    out = VecDeque::new();
                    assert(write_models(out@) =~= Seq::<WriteModel>::empty());
                },
            }
        }
    }
    assert(all.skip(0) =~= all);
    out
}

fn copy_bytes(data: &Vec<u8>, n: usize) -> (out: Vec<u8>)
    requires
        n <= data@.len(),
    ensures
        out@ == data@.take(n as int),
{
    let mut out: Vec<u8> = Vec::new();
    let mut i: usize = 0;
    while i < n
        invariant
            i <= n <= data@.len(),
            out@ == data@.take(i as int),
        decreases n - i,
    {
        out.push(data[i]);
        i = i + 1;
        assert(out@ =~= data@.take(i as int));
    }
    out
}

fn swap_writes(list: &mut Vec<PendingWrite>, i: usize, j: usize)
    requires
        i < old(list)@.len(),
        j < old(list)@.len(),
    ensures
        write_models(final(list)@) == swapped(write_models(old(list)@), i as int, j as int),
        final(list)@.len() == old(list)@.len(),
{
    let ghost before = list@;
    if i != j {
        let mut held = PendingWrite { offset: 0, data: Vec::new() };
        std::mem::swap(&mut list[i], &mut held);
        std::mem::swap(&mut list[j], &mut held);
        std::mem::swap(&mut list[i], &mut held);
        assert(list@[i as int] == before[j as int]);
        assert(list@[j as int] == before[i as int]);
    }
    assert(write_models(list@) =~= swapped(write_models(before), i as int, j as int));
}

/// Puts a list into random order.
#[verifier::loop_isolation(false)]
fn shuffle(list: &mut Vec<PendingWrite>, rng: &mut XorShift64)
    requires
        old(list)@.len() > 0,
    ensures
        (write_models(final(list)@), final(rng).0) == shuffled(
            write_models(old(list)@),
            old(rng).0,
            (old(list)@.len() - 1) as nat,
        ),
        final(list)@.len() == old(list)@.len(),
{
    let ghost goal = shuffled(write_models(list@), rng.0, (list@.len() - 1) as nat);
    let n: usize = list.len();
    let mut index: usize = n - 1;
    while index > 0
        invariant
            index < n,
            list@.len() == n,
            shuffled(write_models(list@), rng.0, index as nat) == goal,
        decreases index,
    {
        let other: usize = rng.below((index + 1) as u64) as usize;
        swap_writes(list, index, other);
        index = index - 1;
    }
}

/// The deterministic part of an SD card.
#[derive(Debug)]
pub struct SdCard {
    profile: Profile,
    rng: XorShift64,
    pending: VecDeque<PendingWrite>,
    wear_counts: Vec<u64>,
    bad_blocks: Vec<bool>,
    status: DeviceStatus,
    generation: u64,
    stats: Stats,
    setbacks: Vec<Setback>,
}

impl SdCard {
    /// What the card goes back to where a step of the last operation fails, for each
    /// of its steps.
    pub closed spec fn setbacks(&self) -> Seq<Setback> {
        self.setbacks@
    }

    /// The state of the card.
    pub closed spec fn model(&self) -> CardModel {
        CardModel {
            profile: self.profile,
            rng: self.rng.0,
            pending: write_models(self.pending@),
            wear: self.wear_counts@,
            bad: self.bad_blocks@,
            status: self.status,
            generation: self.generation,
            stats: self.stats,
        }
    }

    fn record_fault(&mut self, kind: FaultKind, operation: u64, offset: u64)
        ensures
            final(self).model() == with_fault(old(self).model(), kind, operation, offset),
            final(self).setbacks() == old(self).setbacks(),
    {
        self.stats.last_fault_kind = Some(kind);
        self.stats.last_fault_operation = Some(operation);
        self.stats.last_fault_offset = Some(offset);
    }

    fn injected_error(&mut self, kind: FaultKind, offset: u64) -> (error: DeviceError)
        ensures
            final(self).model() == with_injected(old(self).model(), kind, offset),
            final(self).setbacks() == old(self).setbacks(),
            error@ == injected(kind),
    {
        self.stats.injected_eio_operations = self.stats.injected_eio_operations.saturating_add(1);
        let operation: u64 = self.stats.operations;
        self.record_fault(kind, operation, offset);
        let mut text = String::new();
        text.append("injected ");
        text.append(kind.name());
        assert(text@ =~= "injected "@ + fault_name(kind));
        DeviceError { code: ErrorCode::Io, message: text }
    }

    /// Notes the card as it stands, to go back to.
    fn note_setback(&mut self)
        ensures
            final(self).model() == old(self).model(),
            final(self).setbacks() == old(self).setbacks().push(setback_to(old(self).model())),
    {
        let here = Setback {
            rng: self.rng.0,
            status: self.status,
            generation: self.generation,
            stats: self.stats,
            cached: self.pending.len(),
        };
        self.setbacks.push(here);
    }

    /// Has the backing file synced.
    fn sync(&mut self, steps: &mut Vec<BackingStep>, point: SyncPoint)
        ensures
            final(self).model() == old(self).model(),
            final(self).setbacks() == old(self).setbacks().push(setback_to(old(self).model())),
            step_models(final(steps)@) == step_models(old(steps)@).push(StepModel::Sync(point)),
    {
        self.note_setback();
        push_step(steps, BackingStep::Sync(point));
    }

    /// Hands a write to the backing file.
    fn persist(&mut self, steps: &mut Vec<BackingStep>, write: PendingWrite)
        ensures
            final(self).model() == with_persisted(old(self).model(), seq![write.deep_view()]),
            step_models(final(steps)@) == step_models(old(steps)@).push(
                StepModel::Write(write.deep_view()),
            ),
            final(self).setbacks() == old(self).setbacks().push(setback_to(old(self).model())),
    {
        self.note_setback();
        proof {
            let one = seq![write.deep_view()];
            assert(one.drop_last() =~= Seq::<WriteModel>::empty());
            assert(with_persisted(self.model(), Seq::<WriteModel>::empty()) == self.model());
        }
        let n: u64 = write.data.len() as u64;
        self.stats.persisted_bytes = self.stats.persisted_bytes.saturating_add(n);
        push_step(steps, BackingStep::Write(write));
    }

    /// Hands writes to the backing file, oldest first.
    #[verifier::loop_isolation(false)]
    fn persist_all(&mut self, steps: &mut Vec<BackingStep>, writes: VecDeque<PendingWrite>)
        ensures
            final(self).model() == with_persisted(old(self).model(), write_models(writes@)),
            step_models(final(steps)@) == step_models(old(steps)@) + write_steps(
                write_models(writes@),
            ),
            final(self).setbacks() == old(self).setbacks() + write_setbacks(
                old(self).model(),
                write_models(writes@),
            ),
    {
        let ghost noted = self.setbacks();
        let ghost all = write_models(writes@);
        let ghost start = self.model();
        let ghost before = step_models(steps@);
        let mut writes = writes;
        let ghost mut done: int = 0;
        assert(all.take(0) =~= Seq::<WriteModel>::empty());
        assert(before + write_steps(all.take(0)) =~= before);
        assert(noted + write_setbacks(start, all.take(0)) =~= noted);
        while writes.len() > 0
            invariant
                0 <= done <= all.len(),
                write_models(writes@) == all.skip(done),
                self.model() == with_persisted(start, all.take(done)),
                step_models(steps@) == before + write_steps(all.take(done)),
                self.setbacks() == noted + write_setbacks(start, all.take(done)),
            decreases writes@.len(),
        {
            let ghost rest = writes@;
            let write = match writes.pop_front() {
                Some(write) => write,
                None => PendingWrite { offset: 0, data: Vec::new() },
            };
            proof {
                assert(write_models(rest)[0] == all[done]);
                assert(write.deep_view() == all[done]);
                assert forall|k: int| 0 <= k < writes@.len() implies #[trigger] write_models(
                    writes@,
                )[k] == all.skip(done + 1)[k] by {
                    assert(writes@[k] == rest[k + 1]);
                    assert(write_models(rest)[k + 1] == all.skip(done)[k + 1]);
                }
                assert(write_models(writes@) =~= all.skip(done + 1));
                let longer = all.take(done + 1);
                assert(longer.drop_last() =~= all.take(done));
                assert(longer.last() == all[done]);
                let one = seq![write.deep_view()];
                assert(one.drop_last() =~= Seq::<WriteModel>::empty());
                assert(with_persisted(self.model(), Seq::<WriteModel>::empty()) == self.model());
                assert(before + write_steps(longer) =~= (before + write_steps(all.take(done))).push(
                    StepModel::Write(all[done]),
                ));
                assert forall|k: int| 0 <= k <= done implies #[trigger] longer.take(k)
                    == all.take(k) by {
                    assert(longer.take(k) =~= all.take(k));
                }
                assert forall|k: int| 0 <= k < done implies #[trigger] all.take(done).take(k)
                    == all.take(k) by {
                    assert(all.take(done).take(k) =~= all.take(k));
                }
                assert(noted + write_setbacks(start, longer) =~= (noted + write_setbacks(
                    start,
                    all.take(done),
                )).push(setback_to(self.model())));
            }
            self.persist(steps, write);
            proof {
                done = done + 1;
            }
        }
        assert(all.take(done) =~= all);
    }

    /// Decides what a power cut makes of the writes in the cache.
    #[verifier::loop_isolation(false)]
    #[verifier::rlimit(40)]
    fn cut(&mut self, steps: &mut Vec<BackingStep>, writes: VecDeque<PendingWrite>) -> (kept: Vec<
        PendingWrite,
    >)
        ensures
            ({
                let (m, k, s) = cut_writes(old(self).model(), write_models(writes@));
                &&& final(self).model() == m
                &&& write_models(kept@) == k
                &&& step_models(final(steps)@) == step_models(old(steps)@) + s
            }),
            final(self).setbacks() == old(self).setbacks() + cut_setbacks(
                old(self).model(),
                write_models(writes@),
            ),
    {
        let ghost noted = self.setbacks();
        let ghost all = write_models(writes@);
        let ghost start = self.model();
        let ghost before = step_models(steps@);
        let mut writes = writes;
        let mut kept: Vec<PendingWrite> = Vec::new();
        let ghost mut done: int = 0;
        let persist: u32 = self.profile.cache.power_loss_persist_probability_ppm;
        let torn: u32 = self.profile.cache.power_loss_torn_probability_ppm;
        proof {
            assert(all.take(0) =~= Seq::<WriteModel>::empty());
            assert(write_models(kept@) =~= Seq::<WriteModel>::empty());
            assert(before + Seq::<StepModel>::empty() =~= before);
            assert(noted + Seq::<Setback>::empty() =~= noted);
        }
        while writes.len() > 0
            invariant
                0 <= done <= all.len(),
                write_models(writes@) == all.skip(done),
                self.profile == start.profile,
                ({
                    let (m, k, s) = cut_writes(start, all.take(done));
                    &&& self.model() == m
                    &&& write_models(kept@) == k
                    &&& step_models(steps@) == before + s
                }),
                self.setbacks() == noted + cut_setbacks(start, all.take(done)),
            decreases writes@.len(),
        {
            let ghost rest = writes@;
            let write = match writes.pop_front() {
                Some(write) => write,
                None => PendingWrite { offset: 0, data: Vec::new() },
            };
            let ghost sofar = cut_writes(start, all.take(done));
            proof {
                assert(write_models(rest)[0] == all[done]);
                assert(write.deep_view() == all[done]);
                assert forall|k: int| 0 <= k < writes@.len() implies #[trigger] write_models(
                    writes@,
                )[k] == all.skip(done + 1)[k] by {
                    assert(writes@[k] == rest[k + 1]);
                    assert(write_models(rest)[k + 1] == all.skip(done)[k + 1]);
                }
                assert(write_models(writes@) =~= all.skip(done + 1));
                let longer = all.take(done + 1);
                assert(longer.drop_last() =~= all.take(done));
                assert(longer.last() == all[done]);
                lemma_cut_profile(start, longer);
            }
            let roll: u64 = self.rng.below(1_000_000);
            if roll < persist as u64 {
                let ghost one = write.deep_view();
                let ghost held = write_models(kept@);
                kept.push(write);
                assert(write_models(kept@) =~= held.push(one));
            } else if roll < persist as u64 + torn as u64 {
                let total: usize = write.data.len();
                let length: usize = torn_length(&mut self.rng, total);
                if length != 0 {
                    let landed = PendingWrite {
                        offset: write.offset,
                        data: copy_bytes(&write.data, length),
                    };
                    proof {
                        let earlier = cut_setbacks(start, all.take(done));
                        assert(noted + earlier.push(setback_to(self.model())) =~= (noted
                            + earlier).push(setback_to(self.model())));
                    }
                    self.persist(steps, landed);
                    assert(before + sofar.2.push(
                        StepModel::Write(
                            WriteModel {
                                offset: write.offset,
                                data: write.data@.take(length as int),
                            },
                        ),
                    ) =~= (before + sofar.2).push(
                        StepModel::Write(
                            WriteModel {
                                offset: write.offset,
                                data: write.data@.take(length as int),
                            },
                        ),
                    ));
                }
                self.stats.torn_operations = self.stats.torn_operations.saturating_add(1);
                self.stats.torn_bytes = self.stats.torn_bytes.saturating_add(length as u64);
                self.stats.dropped_bytes = self.stats.dropped_bytes.saturating_add(
                    (total - length) as u64,
                );
                self.stats.last_fault_offset = Some(write.offset.saturating_add(length as u64));
            } else {
                self.stats.dropped_operations = self.stats.dropped_operations.saturating_add(1);
                self.stats.dropped_bytes = self.stats.dropped_bytes.saturating_add(
                    write.data.len() as u64,
                );
            }
            proof {
                done = done + 1;
            }
        }
        assert(all.take(done) =~= all);
        kept
    }

    /// Cuts the power.
    #[verifier::rlimit(40)]
    fn apply_power_loss(&mut self, steps: &mut Vec<BackingStep>, kind: FaultKind)
        ensures
            final(self).model() == after_power_loss(old(self).model(), kind).0,
            step_models(final(steps)@) == step_models(old(steps)@) + after_power_loss(
                old(self).model(),
                kind,
            ).1,
            final(self).setbacks() == old(self).setbacks() + power_loss_setbacks(
                old(self).model(),
            ),
    {
        let ghost noted = self.setbacks();
        let ghost m = self.model();
        let ghost before = step_models(steps@);
        let operation: u64 = self.stats.operations;
        let mut pending: VecDeque<PendingWrite> = VecDeque::new();
        std::mem::swap(&mut pending, &mut self.pending);
        assert(self.model() =~= CardModel { pending: Seq::empty(), ..m });
        let mut kept = self.cut(steps, pending);
        let ghost cut = cut_writes(CardModel { pending: Seq::empty(), ..m }, m.pending);
        let n: usize = kept.len();
        assert(cut.1.len() == n);
        let mut reorder: bool = false;
        if n > 1 {
            reorder = self.rng.chance(self.profile.cache.power_loss_reorder_probability_ppm);
        }
        proof {
            lemma_cut_profile(CardModel { pending: Seq::empty(), ..m }, m.pending);
        }
        if reorder {
            shuffle(&mut kept, &mut self.rng);
            self.stats.reordered_operations = self.stats.reordered_operations.saturating_add(
                n as u64,
            );
        }
        let ghost order = write_models(kept@);
        let mut queue: VecDeque<PendingWrite> = VecDeque::new();
        while kept.len() > 0
            invariant
                write_models(kept@) + write_models(queue@) == order,
            decreases kept@.len(),
        {
            let ghost k = write_models(kept@);
            let ghost q = write_models(queue@);
            if let Some(write) = kept.pop() {
                let ghost one = write.deep_view();
                queue.push_front(write);
                assert(write_models(kept@) =~= k.drop_last());
                assert(write_models(queue@) =~= seq![one] + q);
                assert(k.drop_last() + (seq![one] + q) =~= k + q);
            }
        }
        assert(write_models(queue@) =~= order);
        assert((self.model(), order) == power_cut(m));
        self.persist_all(steps, queue);
        self.sync(steps, SyncPoint::PowerLoss);
        self.stats.power_losses = self.stats.power_losses.saturating_add(1);
        self.status = DeviceStatus::Offline;
        self.generation = self.generation.wrapping_add(1);
        let offset: u64 = match self.stats.last_fault_offset {
            Some(offset) => offset,
            None => 0,
        };
        self.record_fault(kind, operation, offset);
        proof {
            assert(step_models(steps@) =~= before + after_power_loss(m, kind).1);
            assert(self.setbacks() =~= noted + power_loss_setbacks(m));
        }
    }

    /// Begins an operation.
    fn begin_operation(&mut self, steps: &mut Vec<BackingStep>, offset: u64) -> (outcome: Result<
        u64,
        DeviceError,
    >)
        requires
            old(steps)@.len() == 0,
            old(self).setbacks().len() == 0,
        ensures
            final(self).setbacks() == begin_setbacks(old(self).model()),
            ({
                let (m, s, begun) = after_begin(old(self).model(), offset);
                &&& final(self).model() == m
                &&& step_models(final(steps)@) == s
                &&& match begun {
                    Ok(operation) => outcome == Ok::<u64, DeviceError>(operation),
                    Err(fault) => outcome matches Err(error) && error@ == fault,
                }
            }),
    {
        assert(step_models(steps@) =~= Seq::<StepModel>::empty());
        assert(self.setbacks() =~= Seq::<Setback>::empty());
        if self.status == DeviceStatus::Offline {
            return Err(DeviceError::from_code(ErrorCode::Disconnected, "device is offline"));
        }
        self.stats.operations = self.stats.operations.saturating_add(1);
        let operation: u64 = self.stats.operations;
        let cuts: bool = match self.profile.faults.power_loss_after_ops {
            Some(n) => n == operation,
            None => false,
        };
        if cuts {
            self.apply_power_loss(steps, FaultKind::ScheduledPowerLoss);
            assert(step_models(steps@) =~= after_begin(old(self).model(), offset).1);
            assert(self.setbacks() =~= begin_setbacks(old(self).model()));
            return Err(DeviceError::from_code(ErrorCode::Disconnected, "scheduled power loss"));
        }
        let disappears: bool = match self.profile.faults.disappear_after_ops {
            Some(n) => n == operation,
            None => false,
        };
        if disappears {
            self.apply_power_loss(steps, FaultKind::ScheduledDisappearance);
            assert(step_models(steps@) =~= after_begin(old(self).model(), offset).1);
            assert(self.setbacks() =~= begin_setbacks(old(self).model()));
            return Err(
                DeviceError::from_code(ErrorCode::Disconnected, "scheduled device disappearance"),
            );
        }
        let locks: bool = match self.profile.faults.read_only_after_ops {
            Some(n) => n == operation,
            None => false,
        };
        if locks {
            self.status = DeviceStatus::ReadOnly;
            self.record_fault(FaultKind::ScheduledReadOnly, operation, offset);
        }
        if self.rng.chance(self.profile.faults.eio_probability_ppm) {
            return Err(self.injected_error(FaultKind::RandomEio, offset));
        }
        Ok(operation)
    }

    /// Chooses how long an operation takes.
    fn wait_for_io(&mut self, write: bool) -> (latency: u64)
        ensures
            (final(self).model(), latency) == after_wait(old(self).model(), write),
            final(self).setbacks() == old(self).setbacks(),
    {
        let io: IoProfile = if write {
            self.profile.write
        } else {
            self.profile.read
        };
        let mut latency: u64 = io.base_latency_us;
        latency = latency.saturating_add(self.rng.below(io.jitter_latency_us.saturating_add(1)));
        if self.rng.chance(io.spike_probability_ppm) {
            let width: u64 = io.spike_latency_us_max.saturating_sub(
                io.spike_latency_us_min,
            ).saturating_add(1);
            latency = latency.saturating_add(
                io.spike_latency_us_min.saturating_add(self.rng.below(width)),
            );
            self.stats.latency_spikes = self.stats.latency_spikes.saturating_add(1);
        }
        if self.profile.wear.enabled && self.stats.max_erase_count
            >= self.profile.wear.warning_cycles {
            let more: u64 = match io.base_latency_us.checked_mul(4) {
                Some(more) => more,
                None => u64::MAX,
            };
            latency = latency.saturating_add(more);
        }
        latency
    }
}

/// A power cut does not change the profile.
proof fn lemma_cut_profile(m: CardModel, list: Seq<WriteModel>)
    ensures
        cut_writes(m, list).0.profile == m.profile,
        cut_writes(m, list).0.pending == m.pending,
        cut_writes(m, list).0.generation == m.generation,
        cut_writes(m, list).0.stats.operations == m.stats.operations,
    decreases list.len(),
{
    if list.len() > 0 {
        lemma_cut_profile(m, list.drop_last());
        let write = list.last();
        let m1 = cut_writes(m, list.drop_last()).0;
        let (roll, rng) = drawn_below(m1.rng, 1_000_000);
        let (length, rng2) = drawn_tear(rng, write.data.len());
        let landed = WriteModel { offset: write.offset, data: write.data.take(length as int) };
        assert(seq![landed].drop_last() =~= Seq::<WriteModel>::empty());
        assert(with_persisted(CardModel { rng: rng2, ..m1 }, Seq::<WriteModel>::empty())
            == CardModel { rng: rng2, ..m1 });
    }
}

pub proof fn lemma_blocks(m: CardModel, offset: u64, length: nat)
    requires
        sound_card(m),
        length > 0,
        offset + length <= m.profile.device.size_bytes,
    ensures
        m.profile.device.erase_block_bytes >= 512,
        0 <= first_block(m, offset) <= last_block(m, offset, length) < m.bad.len(),
        last_block(m, offset, length) <= u64::MAX,
{
    let e = m.profile.device.erase_block_bytes as int;
    let size = m.profile.device.size_bytes as int;
    assert(e >= 512);
    vstd::arithmetic::div_mod::lemma_div_is_ordered(
        offset as int,
        (offset + length - 1) as int,
        e,
    );
    vstd::arithmetic::div_mod::lemma_div_is_ordered((offset + length - 1) as int, size - 1, e);
    assert((size - 1) / e < (size + e - 1) / e) by {
        vstd::arithmetic::div_mod::lemma_div_plus_one(size - 1, e);
        assert(size - 1 + e == size + e - 1);
    }
    vstd::arithmetic::div_mod::lemma_div_pos_is_pos(offset as int, e);
    assert((offset + length - 1) / e <= offset + length - 1) by {
        vstd::arithmetic::div_mod::lemma_div_nonincreasing((offset + length - 1) as int, e);
    }
}

pub proof fn lemma_erase_keeps(m: CardModel, first: int, n: nat)
    requires
        0 <= first,
        first + n <= m.wear.len(),
        m.bad.len() == m.wear.len(),
    ensures
        ({
            let after = after_erase(m, first, n);
            &&& after.profile == m.profile
            &&& after.wear.len() == m.wear.len()
            &&& after.bad.len() == m.bad.len()
            &&& after.rng == m.rng
            &&& after.pending == m.pending
            &&& after.status == m.status
            &&& after.generation == m.generation
            &&& after.stats.operations == m.stats.operations
        }),
    decreases n,
{
    if n > 0 {
        lemma_erase_keeps(m, first, (n - 1) as nat);
    }
}

/// A power cut leaves the record of each erase block.
proof fn lemma_cut_sound(m: CardModel, list: Seq<WriteModel>)
    ensures
        cut_writes(m, list).0.wear == m.wear,
        cut_writes(m, list).0.bad == m.bad,
    decreases list.len(),
{
    if list.len() > 0 {
        lemma_cut_sound(m, list.drop_last());
        let write = list.last();
        let m1 = cut_writes(m, list.drop_last()).0;
        let (roll, rng) = drawn_below(m1.rng, 1_000_000);
        let (length, rng2) = drawn_tear(rng, write.data.len());
        let landed = WriteModel { offset: write.offset, data: write.data.take(length as int) };
        assert(seq![landed].drop_last() =~= Seq::<WriteModel>::empty());
        assert(with_persisted(CardModel { rng: rng2, ..m1 }, Seq::<WriteModel>::empty())
            == CardModel { rng: rng2, ..m1 });
    }
}

pub proof fn lemma_persisted_keeps(m: CardModel, writes: Seq<WriteModel>)
    ensures
        ({
            let after = with_persisted(m, writes);
            &&& after.profile == m.profile
            &&& after.wear == m.wear
            &&& after.bad == m.bad
            &&& after.pending == m.pending
            &&& after.rng == m.rng
            &&& after.status == m.status
            &&& after.generation == m.generation
            &&& after.stats.operations == m.stats.operations
        }),
    decreases writes.len(),
{
    if writes.len() > 0 {
        lemma_persisted_keeps(m, writes.drop_last());
    }
}

pub proof fn lemma_power_loss_keeps(m: CardModel, kind: FaultKind)
    ensures
        after_power_loss(m, kind).0.profile == m.profile,
        after_power_loss(m, kind).0.wear == m.wear,
        after_power_loss(m, kind).0.bad == m.bad,
        after_power_loss(m, kind).0.pending == Seq::<WriteModel>::empty(),
        after_power_loss(m, kind).0.status == DeviceStatus::Offline,
{
    let start = CardModel { pending: Seq::empty(), ..m };
    lemma_cut_profile(start, m.pending);
    lemma_cut_sound(start, m.pending);
    let (m1, order) = power_cut(m);
    lemma_persisted_keeps(m1, order);
}

/// Beginning an operation leaves the profile and the record of each erase block.
pub proof fn lemma_begin_keeps(m: CardModel, offset: u64)
    ensures
        after_begin(m, offset).0.profile == m.profile,
        after_begin(m, offset).0.wear == m.wear,
        after_begin(m, offset).0.bad == m.bad,
        after_begin(m, offset).2 is Ok ==> after_begin(m, offset).0.pending == m.pending
            && after_begin(m, offset).1 == Seq::<StepModel>::empty(),
{
    let operation = plus(m.stats.operations, 1);
    let m1 = CardModel { stats: Stats { operations: operation, ..m.stats }, ..m };
    lemma_power_loss_keeps(m1, FaultKind::ScheduledPowerLoss);
    lemma_power_loss_keeps(m1, FaultKind::ScheduledDisappearance);
}

impl SdCard {
    fn check_range(&self, offset: u64, length: usize) -> (outcome: Result<(), DeviceError>)
        ensures
            answers(outcome, range_fault(self.model(), offset, length as nat)),
    {
        let end: u64 = match offset.checked_add(length as u64) {
            Some(end) => end,
            None => {
                return Err(
                    DeviceError::from_code(ErrorCode::Invalid, "request range overflows u64"),
                );
            },
        };
        if end > self.profile.device.size_bytes {
            let mut text = String::new();
            text.append("request ends at ");
            put_decimal(&mut text, end as u128);
            text.append(", past device size ");
            put_decimal(&mut text, self.profile.device.size_bytes as u128);
            assert(text@ =~= "request ends at "@ + decimal(end as nat) + ", past device size "@
                + decimal(self.profile.device.size_bytes as nat));
            return Err(DeviceError { code: ErrorCode::NoSpace, message: text });
        }
        Ok(())
    }

    fn touches_bad_block(&self, offset: u64, length: usize) -> (yes: bool)
        requires
            sound_card(self.model()),
            offset + length <= self.model().profile.device.size_bytes,
        ensures
            yes == touches_bad(self.model(), offset, length as nat),
    {
        if length == 0 {
            return false;
        }
        let ghost m = self.model();
        proof {
            lemma_blocks(m, offset, length as nat);
        }
        let size: u64 = self.profile.device.erase_block_bytes;
        let blocks: usize = self.bad_blocks.len();
        let first: usize = (offset / size) as usize;
        let last: usize = ((offset + length as u64 - 1) / size) as usize;
        let mut b: usize = first;
        while b <= last
            invariant
                m == self.model(),
                0 < length,
                first == first_block(m, offset),
                last == last_block(m, offset, length as nat),
                blocks == self.bad_blocks@.len(),
                last < blocks,
                first <= b <= last + 1,
                forall|k: int| first <= k < b ==> !#[trigger] m.bad[k],
            decreases last + 1 - b,
        {
            if self.bad_blocks[b] {
                assert(m.bad[b as int]);
                return true;
            }
            b = b + 1;
        }
        false
    }

    /// Wears the blocks that a write touches.
    #[verifier::loop_isolation(false)]
    #[verifier::rlimit(40)]
    fn apply_wear(&mut self, offset: u64, length: usize) -> (outcome: Result<(), DeviceError>)
        requires
            sound_card(old(self).model()),
            offset + length <= old(self).model().profile.device.size_bytes,
        ensures
            final(self).model() == after_wear(old(self).model(), offset, length as nat).0,
            answers(outcome, after_wear(old(self).model(), offset, length as nat).1),
            final(self).setbacks() == old(self).setbacks(),
    {
        if !self.profile.wear.enabled || length == 0 {
            return Ok(());
        }
        let ghost m = self.model();
        proof {
            lemma_blocks(m, offset, length as nat);
        }
        let size: u64 = self.profile.device.erase_block_bytes;
        let blocks: usize = self.bad_blocks.len();
        let first: usize = (offset / size) as usize;
        let last: usize = ((offset + length as u64 - 1) / size) as usize;
        let factor: u64 = self.profile.wear.accelerated_factor;
        let mut n: usize = 0;
        while n <= last - first
            invariant
                first <= last < m.wear.len(),
                m.wear.len() == m.bad.len(),
                n <= last - first + 1,
                self.model() == after_erase(m, first as int, n as nat),
                self.setbacks() == old(self).setbacks(),
                factor == m.profile.wear.accelerated_factor,
            decreases last - first + 1 - n,
        {
            proof {
                lemma_erase_keeps(m, first as int, n as nat);
            }
            let block: usize = first + n;
            let count: u64 = self.wear_counts[block].saturating_add(factor);
            self.wear_counts.set(block, count);
            self.stats.erase_operations = self.stats.erase_operations.saturating_add(factor);
            if count > self.stats.max_erase_count {
                self.stats.max_erase_count = count;
            }
            if count >= self.profile.wear.failure_cycles && !self.bad_blocks[block] {
                self.bad_blocks.set(block, true);
                self.stats.bad_blocks = self.stats.bad_blocks.saturating_add(1);
            }
            n = n + 1;
            assert(self.model() =~= after_erase(m, first as int, n as nat));
        }
        proof {
            lemma_erase_keeps(m, first as int, n as nat);
        }
        let limit: u64 = self.profile.wear.read_only_after_bad_blocks;
        if self.stats.bad_blocks >= limit && limit != 0 {
            self.status = DeviceStatus::ReadOnly;
            let operation: u64 = self.stats.operations;
            self.record_fault(FaultKind::WearReadOnly, operation, offset);
            return Err(
                DeviceError::from_code(
                    ErrorCode::ReadOnly,
                    "wear threshold made the device read-only",
                ),
            );
        }
        if self.stats.max_erase_count >= self.profile.wear.warning_cycles && self.rng.chance(
            self.profile.wear.worn_eio_probability_ppm,
        ) {
            return Err(self.injected_error(FaultKind::WornBlockEio, offset));
        }
        Ok(())
    }

    /// How many bytes wait in the cache.
    fn pending_bytes(&self) -> (bytes: u64)
        ensures
            bytes == cached_bytes(self.model().pending),
    {
        let ghost all = self.model().pending;
        let mut bytes: u64 = 0;
        let mut i: usize = 0;
        assert(all.take(0) =~= Seq::<WriteModel>::empty());
        while i < self.pending.len()
            invariant
                all == self.model().pending,
                i <= self.pending@.len(),
                bytes == cached_bytes(all.take(i as int)),
            decreases self.pending@.len() - i,
        {
            proof {
                assert(all.take(i + 1).drop_last() =~= all.take(i as int));
                assert(all.take(i + 1).last() == self.pending@[i as int].deep_view());
            }
            bytes = bytes.saturating_add(self.pending[i].data.len() as u64);
            i = i + 1;
        }
        assert(all.take(i as int) =~= all);
        bytes
    }

    /// Cuts the cache down to its size.
    #[verifier::loop_isolation(false)]
    #[verifier::rlimit(40)]
    fn evict_cache(&mut self, steps: &mut Vec<BackingStep>)
        requires
            old(steps)@.len() == 0,
            old(self).setbacks().len() == 0,
        ensures
            final(self).setbacks() == evict_setbacks(old(self).model()),
            final(self).model() == after_evict(old(self).model()).0,
            step_models(final(steps)@) == after_evict(old(self).model()).1,
    {
        let ghost m = self.model();
        let ghost all = m.pending;
        let max: u64 = self.profile.cache.max_bytes;
        let ghost n = evictions(all, max) as int;
        let ghost mut gone: int = 0;
        let mut evicted: bool = false;
        proof {
            assert(step_models(steps@) =~= Seq::<StepModel>::empty());
            assert(all.take(0) =~= Seq::<WriteModel>::empty());
            assert(all.skip(0) =~= all);
            assert(write_steps(all.take(0)) =~= Seq::<StepModel>::empty());
            assert(CardModel { pending: all.skip(0), ..m } =~= m);
        }
        let ghost back = |i: int|
            setback_to(
                with_persisted(CardModel { pending: all.skip(i + 1), ..m }, all.take(i)),
            );
        assert(self.setbacks() =~= Seq::new(0, back));
        while self.pending.len() > 0 && self.pending_bytes() > max
            invariant
                0 <= gone <= all.len(),
                self.model().pending == all.skip(gone),
                n == gone + evictions(all.skip(gone), max),
                self.model() == with_persisted(
                    CardModel { pending: all.skip(gone), ..m },
                    all.take(gone),
                ),
                step_models(steps@) == write_steps(all.take(gone)),
                evicted == (gone > 0),
                self.setbacks() == Seq::new(gone as nat, back),
            decreases all.len() - gone,
        {
            let ghost rest = self.pending@;
            let write = match self.pending.pop_front() {
                Some(write) => write,
                None => PendingWrite { offset: 0, data: Vec::new() },
            };
            let ghost one = write.deep_view();
            proof {
                assert(write_models(rest)[0] == all.skip(gone)[0]);
                assert(one == all[gone]);
                assert forall|k: int| 0 <= k < self.pending@.len() implies #[trigger] write_models(
                    self.pending@,
                )[k] == all.skip(gone + 1)[k] by {
                    assert(self.pending@[k] == rest[k + 1]);
                    assert(write_models(rest)[k + 1] == all.skip(gone)[k + 1]);
                }
                assert(write_models(self.pending@) =~= all.skip(gone + 1));
                assert(all.skip(gone).skip(1) =~= all.skip(gone + 1));
                let longer = all.take(gone + 1);
                assert(longer.drop_last() =~= all.take(gone));
                assert(longer.last() == one);
                lemma_pending_apart(m, all.skip(gone), all.skip(gone + 1), all.take(gone));
                assert(write_steps(longer) =~= write_steps(all.take(gone)).push(
                    StepModel::Write(one),
                ));
                assert(seq![one].drop_last() =~= Seq::<WriteModel>::empty());
                assert(with_persisted(self.model(), Seq::<WriteModel>::empty()) == self.model());
                assert(setback_to(self.model()) == back(gone));
                assert(Seq::new(gone as nat, back).push(back(gone)) =~= Seq::new(
                    (gone + 1) as nat,
                    back,
                ));
            }
            self.persist(steps, write);
            evicted = true;
            proof {
                gone = gone + 1;
            }
        }
        proof {
            if self.pending@.len() > 0 {
                assert(all.skip(gone).len() > 0);
            }
            assert(evictions(all.skip(gone), max) == 0);
        }
        if evicted {
            self.sync(steps, SyncPoint::EvictedCache);
        }
        assert(self.setbacks() =~= evict_setbacks(m));
    }
}

/// What persists does not depend on what else waits in the cache.
proof fn lemma_pending_apart(
    m: CardModel,
    a: Seq<WriteModel>,
    b: Seq<WriteModel>,
    writes: Seq<WriteModel>,
)
    ensures
        with_persisted(CardModel { pending: b, ..m }, writes) == (CardModel {
            pending: b,
            ..with_persisted(CardModel { pending: a, ..m }, writes)
        }),
    decreases writes.len(),
{
    if writes.len() > 0 {
        lemma_pending_apart(m, a, b, writes.drop_last());
    }
}

/// The byte of a write at a place of the device, if the write covers it.
pub open spec fn covered(write: WriteModel, at: int) -> bool {
    write.offset <= at < write.offset + write.data.len()
}

/// The contents of a device after a write.
pub open spec fn put(contents: Seq<u8>, write: WriteModel) -> Seq<u8> {
    Seq::new(
        contents.len(),
        |i: int|
            if covered(write, i) {
                write.data[i - write.offset]
            } else {
                contents[i]
            },
    )
}

/// The contents of a device after some writes, oldest first.
pub open spec fn put_all(contents: Seq<u8>, writes: Seq<WriteModel>) -> Seq<u8>
    decreases writes.len(),
{
    if writes.len() == 0 {
        contents
    } else {
        put(put_all(contents, writes.drop_last()), writes.last())
    }
}

/// Data read at `offset` with a write laid over them.
pub open spec fn laid_over(data: Seq<u8>, offset: u64, write: WriteModel) -> Seq<u8> {
    Seq::new(
        data.len(),
        |i: int|
            if covered(write, offset + i) {
                write.data[offset + i - write.offset]
            } else {
                data[i]
            },
    )
}

pub open spec fn all_laid_over(data: Seq<u8>, offset: u64, writes: Seq<WriteModel>) -> Seq<u8>
    decreases writes.len(),
{
    if writes.len() == 0 {
        data
    } else {
        laid_over(all_laid_over(data, offset, writes.drop_last()), offset, writes.last())
    }
}

/// Lays a write over data that were read at `read_offset`.
fn overlay(read_offset: u64, data: &mut Vec<u8>, write: &PendingWrite)
    ensures
        final(data)@ == laid_over(old(data)@, read_offset, write.deep_view()),
{
    let ghost before = data@;
    let ghost w = write.deep_view();
    let mut i: usize = 0;
    while i < data.len()
        invariant
            i <= data@.len(),
            data@.len() == before.len(),
            w == write.deep_view(),
            forall|k: int|
                0 <= k < data@.len() ==> #[trigger] data@[k] == if k < i {
                    laid_over(before, read_offset, w)[k]
                } else {
                    before[k]
                },
        decreases data@.len() - i,
    {
        let at: u128 = read_offset as u128 + i as u128;
        let start: u128 = write.offset as u128;
        if at >= start && at - start < write.data.len() as u128 {
            let byte: u8 = write.data[(at - start) as usize];
            data.set(i, byte);
        }
        i = i + 1;
    }
    assert(data@ =~= laid_over(before, read_offset, w));
}

/// How long the device is busy with a request, in microseconds: the longer of the
/// transfer and the slot for one operation.
pub open spec fn service_time(io: IoProfile, bytes: nat) -> u64 {
    let transfer = if io.bandwidth_bytes_per_second == 0 {
        0
    } else {
        (bytes * 1_000_000 + io.bandwidth_bytes_per_second - 1)
            / io.bandwidth_bytes_per_second as int
    };
    let slot = if io.iops == 0 {
        0
    } else {
        (1_000_000 + io.iops - 1) / io.iops as int
    };
    let longer = if transfer > slot {
        transfer
    } else {
        slot
    };
    if longer > u64::MAX {
        u64::MAX
    } else {
        longer as u64
    }
}

/// How long the device is busy with a request of `bytes` bytes.
pub fn service_micros(io: &IoProfile, bytes: u64) -> (micros: u64)
    ensures
        micros == service_time(*io, bytes as nat),
{
    let transfer: u128 = if io.bandwidth_bytes_per_second == 0 {
        0
    } else {
        let speed: u128 = io.bandwidth_bytes_per_second as u128;
        (bytes as u128 * 1_000_000 + speed - 1) / speed
    };
    let slot: u128 = if io.iops == 0 {
        0
    } else {
        let rate: u128 = io.iops as u128;
        (1_000_000 + rate - 1) / rate
    };
    let longer: u128 = if transfer > slot {
        transfer
    } else {
        slot
    };
    if longer > u64::MAX as u128 {
        u64::MAX
    } else {
        longer as u64
    }
}

impl SdCard {
    /// Puts a new card behind a backing file of `file_bytes` bytes. The file is to be
    /// given the size of the device where it is empty.
    #[verifier::loop_isolation(false)]
    pub fn open(profile: Profile, seed: u64, file_bytes: u64) -> (outcome: Result<Self, DeviceError>)
        ensures
            match profile_fault(profile) {
                Some(text) => outcome matches Err(error) && error@ == (DeviceFault {
                    code: ErrorCode::Invalid,
                    message: text,
                }),
                None => if file_bytes != 0 && file_bytes != profile.device.size_bytes {
                    outcome matches Err(error) && error@ == (DeviceFault {
                        code: ErrorCode::Invalid,
                        message: "backing file has "@ + decimal(file_bytes as nat)
                            + " bytes; profile needs "@ + decimal(profile.device.size_bytes as nat),
                    })
                } else if erase_blocks(profile.device) > usize::MAX {
                    outcome matches Err(error) && error@ == (DeviceFault {
                        code: ErrorCode::Invalid,
                        message: "erase-block map is too large"@,
                    })
                } else {
                    outcome matches Ok(card) && card.model() == fresh_card(profile, seed)
                        && card.setbacks() == Seq::<Setback>::empty() && sound_card(card.model())
                },
            },
    {
        match profile.validate() {
            Ok(()) => {},
            Err(error) => {
                let text = error.message();
                return Err(DeviceError { code: ErrorCode::Invalid, message: text });
            },
        }
        if file_bytes != 0 && file_bytes != profile.device.size_bytes {
            let mut text = String::new();
            text.append("backing file has ");
            put_decimal(&mut text, file_bytes as u128);
            text.append(" bytes; profile needs ");
            put_decimal(&mut text, profile.device.size_bytes as u128);
            assert(text@ =~= "backing file has "@ + decimal(file_bytes as nat)
                + " bytes; profile needs "@ + decimal(profile.device.size_bytes as nat));
            return Err(DeviceError { code: ErrorCode::Invalid, message: text });
        }
        let size: u128 = profile.device.size_bytes as u128;
        let erase: u128 = profile.device.erase_block_bytes as u128;
        let count: u128 = (size + erase - 1) / erase;
        assert(count == erase_blocks(profile.device));
        if count > usize::MAX as u128 {
            return Err(DeviceError::from_code(ErrorCode::Invalid, "erase-block map is too large"));
        }
        let blocks: usize = count as usize;
        let mut wear_counts: Vec<u64> = Vec::new();
        let mut bad_blocks: Vec<bool> = Vec::new();
        let mut i: usize = 0;
        while i < blocks
            invariant
                i <= blocks,
                wear_counts@ == Seq::new(i as nat, |k: int| 0u64),
                bad_blocks@ == Seq::new(i as nat, |k: int| false),
            decreases blocks - i,
        {
            wear_counts.push(0);
            bad_blocks.push(false);
            i = i + 1;
            assert(wear_counts@ =~= Seq::new(i as nat, |k: int| 0u64));
            assert(bad_blocks@ =~= Seq::new(i as nat, |k: int| false));
        }
        let card = SdCard {
            profile,
            rng: XorShift64::new(seed),
            pending: VecDeque::new(),
            wear_counts,
            bad_blocks,
            status: DeviceStatus::Online,
            generation: 0,
            stats: Stats {
                operations: 0,
                read_operations: 0,
                write_operations: 0,
                flush_operations: 0,
                read_bytes: 0,
                write_bytes: 0,
                persisted_bytes: 0,
                latency_spikes: 0,
                injected_eio_operations: 0,
                injected_torn_operations: 0,
                injected_torn_bytes: 0,
                injected_corruptions: 0,
                false_flushes: 0,
                power_losses: 0,
                dropped_operations: 0,
                dropped_bytes: 0,
                torn_operations: 0,
                torn_bytes: 0,
                reordered_operations: 0,
                erase_operations: 0,
                max_erase_count: 0,
                bad_blocks: 0,
                last_fault_kind: None,
                last_fault_operation: None,
                last_fault_offset: None,
            },
            setbacks: Vec::new(),
        };
        assert(card.model() =~= fresh_card(profile, seed));
        Ok(card)
    }

    /// Puts data into the cache or the backing file.
    #[verifier::rlimit(40)]
    fn store(
        &mut self,
        steps: &mut Vec<BackingStep>,
        operation: u64,
        offset: u64,
        data: Vec<u8>,
        fua: bool,
    )
        requires
            old(steps)@.len() == 0,
            old(self).setbacks().len() == 0,
        ensures
            final(self).setbacks() == store_setbacks(
                old(self).model(),
                operation,
                offset,
                data@,
                fua,
            ),
            final(self).model() == after_store(old(self).model(), operation, offset, data@, fua).0,
            step_models(final(steps)@) == after_store(
                old(self).model(),
                operation,
                offset,
                data@,
                fua,
            ).1,
    {
        let ghost m = self.model();
        let ghost write = WriteModel { offset, data: data@ };
        assert(step_models(steps@) =~= Seq::<StepModel>::empty());
        self.stats.write_operations = self.stats.write_operations.saturating_add(1);
        self.stats.write_bytes = self.stats.write_bytes.saturating_add(data.len() as u64);
        if self.profile.cache.enabled {
            if fua && !self.rng.chance(self.profile.cache.false_flush_probability_ppm) {
                let mut pending: VecDeque<PendingWrite> = VecDeque::new();
                std::mem::swap(&mut pending, &mut self.pending);
                let ghost held = write_models(pending@);
                pending.push_back(PendingWrite { offset, data });
                assert(write_models(pending@) =~= held.push(write));
                assert(write_models(self.pending@) =~= Seq::<WriteModel>::empty());
                self.persist_all(steps, pending);
                self.sync(steps, SyncPoint::FuaWrite);
                assert(self.setbacks() =~= store_setbacks(m, operation, offset, data@, fua));
                assert(step_models(steps@) =~= after_store(m, operation, offset, data@, fua).1);
            } else {
                if fua {
                    self.stats.false_flushes = self.stats.false_flushes.saturating_add(1);
                    self.record_fault(FaultKind::FalseFua, operation, offset);
                }
                let ghost held = write_models(self.pending@);
                self.pending.push_back(PendingWrite { offset, data });
                assert(write_models(self.pending@) =~= held.push(write));
                self.evict_cache(steps);
            }
        } else {
            self.persist(steps, PendingWrite { offset, data });
            self.sync(steps, SyncPoint::Write);
            assert(self.setbacks() =~= store_setbacks(m, operation, offset, data@, fua));
            assert(step_models(steps@) =~= after_store(m, operation, offset, data@, fua).1);
        }
    }

    /// Moves data to the device, whole, torn or corrupted.
    #[verifier::rlimit(40)]
    fn transfer(
        &mut self,
        steps: &mut Vec<BackingStep>,
        operation: u64,
        offset: u64,
        data: Vec<u8>,
        fua: bool,
    ) -> (outcome: Result<(), DeviceError>)
        requires
            old(steps)@.len() == 0,
            old(self).setbacks().len() == 0,
        ensures
            final(self).setbacks() == transfer_setbacks(
                old(self).model(),
                operation,
                offset,
                data@,
                fua,
            ),
            ({
                let (m, s, fault) = after_transfer(
                    old(self).model(),
                    operation,
                    offset,
                    data@,
                    fua,
                );
                &&& final(self).model() == m
                &&& step_models(final(steps)@) == s
                &&& answers(outcome, fault)
            }),
    {
        let ghost m = self.model();
        assert(step_models(steps@) =~= Seq::<StepModel>::empty());
        let mut data = data;
        let ghost given = data@;
        if self.rng.chance(self.profile.faults.torn_write_probability_ppm) {
            let total: usize = data.len();
            let length: usize = torn_length(&mut self.rng, total);
            let landed = PendingWrite { offset, data: copy_bytes(&data, length) };
            self.persist(steps, landed);
            self.sync(steps, SyncPoint::TornWrite);
            assert(self.setbacks() =~= transfer_setbacks(m, operation, offset, given, fua));
            self.stats.injected_torn_operations =
            self.stats.injected_torn_operations.saturating_add(1);
            self.stats.injected_torn_bytes = self.stats.injected_torn_bytes.saturating_add(
                length as u64,
            );
            self.record_fault(FaultKind::TornWrite, operation, offset.saturating_add(length as u64));
            assert(step_models(steps@) =~= after_transfer(m, operation, offset, given, fua).1);
            return Err(DeviceError::from_code(ErrorCode::Io, "injected torn write returned EIO"));
        }
        if self.rng.chance(self.profile.faults.silent_corruption_probability_ppm) && data.len() > 0 {
            let index: usize = self.rng.below(data.len() as u64) as usize;
            let bit: u8 = self.rng.below(8) as u8;
            let flipped: u8 = data[index] ^ (1u8 << bit);
            data.set(index, flipped);
            self.stats.injected_corruptions = self.stats.injected_corruptions.saturating_add(1);
            self.record_fault(
                FaultKind::SilentCorruption,
                operation,
                offset.saturating_add(index as u64),
            );
        }
        self.store(steps, operation, offset, data, fua);
        Ok(())
    }

    /// Writes data at `offset`. With `fua` the data and all that waits in the cache
    /// are to be on the backing file before the answer.
    pub fn write(&mut self, offset: u64, data: Vec<u8>, fua: bool) -> (action: CardAction)
        requires
            sound_card(old(self).model()),
        ensures
            carries_out(
                action,
                final(self).model(),
                write_effects(old(self).model(), offset, data@, fua),
            ),
            final(self).setbacks() == written_setbacks(old(self).model(), offset, data@, fua),
            sound_card(final(self).model()),
    {
        let ghost m = self.model();
        proof {
            operations_keep_the_card_sound(m, offset, data@, fua, 0, FaultKind::PowerLoss);
        }
        let mut steps: Vec<BackingStep> = Vec::new();
        self.setbacks = Vec::new();
        assert(step_models(steps@) =~= Seq::<StepModel>::empty());
        assert(self.setbacks() =~= Seq::<Setback>::empty());
        let length: usize = data.len();
        if let Err(error) = self.check_range(offset, length) {
            return failure(steps, error);
        }
        proof {
            lemma_begin_keeps(m, offset);
        }
        let operation: u64 = match self.begin_operation(&mut steps, offset) {
            Ok(operation) => operation,
            Err(error) => {
                return failure(steps, error);
            },
        };
        if self.status == DeviceStatus::ReadOnly {
            return failure(
                steps,
                DeviceError::from_code(ErrorCode::ReadOnly, "device is read-only"),
            );
        }
        if self.touches_bad_block(offset, length) {
            let error = self.injected_error(FaultKind::BadBlockWrite, offset);
            return failure(steps, error);
        }
        let latency: u64 = self.wait_for_io(true);
        if let Err(error) = self.apply_wear(offset, length) {
            return CardAction { steps, latency_us: Some(latency), outcome: Err(error) };
        }
        assert(steps@.len() == step_models(steps@).len());
        let outcome = self.transfer(&mut steps, operation, offset, data, fua);
        CardAction { steps, latency_us: Some(latency), outcome }
    }

    /// Begins a read of `length` bytes at `offset`. Where the action succeeds, the
    /// bytes are read from the backing file and handed to `finish_read`.
    pub fn begin_read(&mut self, offset: u64, length: usize) -> (action: CardAction)
        requires
            sound_card(old(self).model()),
        ensures
            carries_out(
                action,
                final(self).model(),
                read_effects(old(self).model(), offset, length as nat),
            ),
            final(self).setbacks() == read_setbacks(old(self).model(), offset, length as nat),
            sound_card(final(self).model()),
    {
        let ghost m = self.model();
        proof {
            operations_keep_the_card_sound(
                m,
                offset,
                Seq::empty(),
                false,
                length as nat,
                FaultKind::PowerLoss,
            );
        }
        let mut steps: Vec<BackingStep> = Vec::new();
        self.setbacks = Vec::new();
        assert(step_models(steps@) =~= Seq::<StepModel>::empty());
        assert(self.setbacks() =~= Seq::<Setback>::empty());
        if let Err(error) = self.check_range(offset, length) {
            return failure(steps, error);
        }
        proof {
            lemma_begin_keeps(m, offset);
        }
        if let Err(error) = self.begin_operation(&mut steps, offset) {
            return failure(steps, error);
        }
        if self.touches_bad_block(offset, length) {
            let error = self.injected_error(FaultKind::BadBlockRead, offset);
            return failure(steps, error);
        }
        let latency: u64 = self.wait_for_io(false);
        CardAction { steps, latency_us: Some(latency), outcome: Ok(()) }
    }

    /// Lays the writes that wait in the cache over data read from the backing file.
    pub fn finish_read(&mut self, offset: u64, data: Vec<u8>) -> (out: Vec<u8>)
        ensures
            out@ == all_laid_over(data@, offset, old(self).model().pending),
            final(self).model() == (CardModel {
                stats: Stats {
                    read_operations: plus(old(self).model().stats.read_operations, 1),
                    read_bytes: plus(old(self).model().stats.read_bytes, data@.len()),
                    ..old(self).model().stats
                },
                ..old(self).model()
            }),
            final(self).setbacks() == old(self).setbacks(),
    {
        let ghost m = self.model();
        let ghost given = data@;
        let n: u64 = data.len() as u64;
        let mut out = data;
        let mut i: usize = 0;
        assert(m.pending.take(0) =~= Seq::<WriteModel>::empty());
        while i < self.pending.len()
            invariant
                m == self.model(),
                self.setbacks() == old(self).setbacks(),
                i <= self.pending@.len(),
                out@ == all_laid_over(given, offset, m.pending.take(i as int)),
            decreases self.pending@.len() - i,
        {
            overlay(offset, &mut out, &self.pending[i]);
            proof {
                assert(m.pending.take(i + 1).drop_last() =~= m.pending.take(i as int));
                assert(m.pending.take(i + 1).last() == self.pending@[i as int].deep_view());
            }
            i = i + 1;
        }
        assert(m.pending.take(i as int) =~= m.pending);
        self.stats.read_operations = self.stats.read_operations.saturating_add(1);
        self.stats.read_bytes = self.stats.read_bytes.saturating_add(n);
        out
    }

    /// Moves what waits in the cache to the backing file, unless the card only says
    /// so.
    pub fn flush(&mut self) -> (action: CardAction)
        ensures
            carries_out(action, final(self).model(), flush_effects(old(self).model())),
            final(self).setbacks() == flush_setbacks(old(self).model()),
    {
        let ghost m = self.model();
        let mut steps: Vec<BackingStep> = Vec::new();
        self.setbacks = Vec::new();
        assert(step_models(steps@) =~= Seq::<StepModel>::empty());
        assert(self.setbacks() =~= Seq::<Setback>::empty());
        proof {
            lemma_begin_keeps(m, 0);
        }
        let operation: u64 = match self.begin_operation(&mut steps, 0) {
            Ok(operation) => operation,
            Err(error) => {
                return failure(steps, error);
            },
        };
        let latency: u64 = self.wait_for_io(true);
        self.stats.flush_operations = self.stats.flush_operations.saturating_add(1);
        if self.rng.chance(self.profile.cache.false_flush_probability_ppm) {
            self.stats.false_flushes = self.stats.false_flushes.saturating_add(1);
            self.record_fault(FaultKind::FalseFlush, operation, 0);
            return CardAction { steps, latency_us: Some(latency), outcome: Ok(()) };
        }
        let mut pending: VecDeque<PendingWrite> = VecDeque::new();
        std::mem::swap(&mut pending, &mut self.pending);
        assert(write_models(self.pending@) =~= Seq::<WriteModel>::empty());
        self.persist_all(&mut steps, pending);
        self.sync(&mut steps, SyncPoint::Flush);
        assert(self.setbacks() =~= flush_setbacks(m));
        assert(step_models(steps@) =~= flush_effects(m).steps);
        CardAction { steps, latency_us: Some(latency), outcome: Ok(()) }
    }

    /// Cuts the power.
    pub fn power_loss(&mut self) -> (steps: Vec<BackingStep>)
        ensures
            (final(self).model(), step_models(steps@)) == after_power_loss(
                old(self).model(),
                FaultKind::PowerLoss,
            ),
            final(self).setbacks() == power_loss_setbacks(old(self).model()),
    {
        let mut steps: Vec<BackingStep> = Vec::new();
        self.setbacks = Vec::new();
        let ghost m = self.model();
        self.apply_power_loss(&mut steps, FaultKind::PowerLoss);
        assert(step_models(steps@) =~= after_power_loss(m, FaultKind::PowerLoss).1);
        assert(self.setbacks() =~= power_loss_setbacks(m));
        steps
    }

    /// Takes the card out.
    pub fn detach(&mut self) -> (steps: Vec<BackingStep>)
        ensures
            (final(self).model(), step_models(steps@)) == after_power_loss(
                old(self).model(),
                FaultKind::DeviceDisappeared,
            ),
            final(self).setbacks() == power_loss_setbacks(old(self).model()),
    {
        let mut steps: Vec<BackingStep> = Vec::new();
        self.setbacks = Vec::new();
        let ghost m = self.model();
        self.apply_power_loss(&mut steps, FaultKind::DeviceDisappeared);
        assert(step_models(steps@) =~= after_power_loss(m, FaultKind::DeviceDisappeared).1);
        assert(self.setbacks() =~= power_loss_setbacks(m));
        steps
    }

    /// Takes note that a step of the last operation has failed: that with the number
    /// `failed`, counted from 0, where `rest` are the steps behind it. The card goes
    /// back to where the step began. What the steps before it did stands.
    pub fn step_failed(&mut self, failed: usize, rest: Vec<BackingStep>)
        ensures
            final(self).model() == if failed < old(self).setbacks().len() {
                set_back(
                    old(self).model(),
                    old(self).setbacks()[failed as int],
                    step_models(rest@),
                )
            } else {
                old(self).model()
            },
            final(self).setbacks() == Seq::<Setback>::empty(),
            sound_card(old(self).model()) ==> sound_card(final(self).model()),
    {
        let ghost m = self.model();
        let ghost all = step_models(rest@);
        if failed < self.setbacks.len() {
            let to: Setback = self.setbacks[failed];
            self.rng = XorShift64(to.rng);
            self.status = to.status;
            self.generation = to.generation;
            self.stats = to.stats;
            let mut n: usize = 0;
            if self.profile.cache.enabled && to.cached > self.pending.len() {
                n = to.cached - self.pending.len();
            }
            let mut back = first_pending(rest, n);
            let ghost first = write_models(back@);
            let ghost kept = self.pending@;
            back.append(&mut self.pending);
            assert(write_models(back@) =~= first + write_models(kept));
            self.pending = back;
            assert(self.model() =~= set_back(m, to, all));
            assert(n == 0 ==> first =~= Seq::<WriteModel>::empty());
        }
        self.setbacks = Vec::new();
    }

    /// Puts the card back.
    pub fn reset(&mut self)
        ensures
            final(self).model() == (CardModel {
                status: DeviceStatus::Online,
                generation: wrapped(old(self).model().generation),
                ..old(self).model()
            }),
            final(self).setbacks() == old(self).setbacks(),
    {
        self.status = DeviceStatus::Online;
        self.generation = self.generation.wrapping_add(1);
    }

    /// Locks the card against writes, or unlocks it.
    pub fn set_read_only(&mut self, read_only: bool)
        ensures
            final(self).model() == (CardModel {
                status: if read_only {
                    DeviceStatus::ReadOnly
                } else {
                    DeviceStatus::Online
                },
                generation: wrapped(old(self).model().generation),
                ..old(self).model()
            }),
            final(self).setbacks() == old(self).setbacks(),
    {
        self.status = if read_only {
            DeviceStatus::ReadOnly
        } else {
            DeviceStatus::Online
        };
        self.generation = self.generation.wrapping_add(1);
    }

    pub fn size(&self) -> (bytes: u64)
        ensures
            bytes == self.model().profile.device.size_bytes,
    {
        self.profile.device.size_bytes
    }

    pub fn logical_block_bytes(&self) -> (bytes: u64)
        ensures
            bytes == self.model().profile.device.logical_block_bytes,
    {
        self.profile.device.logical_block_bytes
    }

    pub fn generation(&self) -> (generation: u64)
        ensures
            generation == self.model().generation,
    {
        self.generation
    }

    pub fn status(&self) -> (status: DeviceStatus)
        ensures
            status == self.model().status,
    {
        self.status
    }

    /// What the card has done so far.
    pub fn stats(&self) -> (stats: Stats)
        ensures
            stats == self.model().stats,
    {
        self.stats
    }

    /// How many writes wait in the cache, and how many bytes they have.
    pub fn cached(&self) -> (cached: (usize, u64))
        ensures
            cached.0 == self.model().pending.len(),
            cached.1 == cached_bytes(self.model().pending),
    {
        (self.pending.len(), self.pending_bytes())
    }

    /// The timing of reads or writes.
    pub fn timing(&self, write: bool) -> (io: IoProfile)
        ensures
            io == io_profile(self.model(), write),
    {
        if write {
            self.profile.write
        } else {
            self.profile.read
        }
    }
}

pub proof fn lemma_wait_keeps(m: CardModel, write: bool)
    ensures
        ({
            let after = after_wait(m, write).0;
            &&& after.profile == m.profile
            &&& after.wear == m.wear
            &&& after.bad == m.bad
            &&& after.pending == m.pending
        }),
{
}

pub proof fn lemma_wear_keeps(m: CardModel, offset: u64, length: nat)
    requires
        sound_card(m),
        offset + length <= m.profile.device.size_bytes,
    ensures
        sound_card(after_wear(m, offset, length).0),
        after_wear(m, offset, length).0.profile == m.profile,
        after_wear(m, offset, length).0.pending == m.pending,
{
    if m.profile.wear.enabled && length > 0 {
        lemma_blocks(m, offset, length);
        let first = first_block(m, offset);
        lemma_erase_keeps(m, first, (last_block(m, offset, length) - first + 1) as nat);
    }
}

proof fn lemma_transfer_keeps(
    m: CardModel,
    operation: u64,
    offset: u64,
    data: Seq<u8>,
    fua: bool,
)
    requires
        sound_card(m),
    ensures
        sound_card(after_transfer(m, operation, offset, data, fua).0),
{
    let (torn, rng1) = drawn_chance(m.rng, m.profile.faults.torn_write_probability_ppm);
    let m1 = CardModel { rng: rng1, ..m };
    let (length, rng2) = drawn_tear(rng1, data.len());
    lemma_persisted_keeps(
        CardModel { rng: rng2, ..m1 },
        seq![WriteModel { offset, data: data.take(length as int) }],
    );
    let (m2, stored) = after_corruption(m1, operation, offset, data);
    lemma_store_keeps(m2, operation, offset, stored, fua);
}

proof fn lemma_store_keeps(m: CardModel, operation: u64, offset: u64, data: Seq<u8>, fua: bool)
    ensures
        after_store(m, operation, offset, data, fua).0.profile == m.profile,
        after_store(m, operation, offset, data, fua).0.wear == m.wear,
        after_store(m, operation, offset, data, fua).0.bad == m.bad,
        !m.profile.cache.enabled ==> after_store(m, operation, offset, data, fua).0.pending
            == m.pending,
{
    let write = WriteModel { offset, data };
    let m1 = CardModel {
        stats: Stats {
            write_operations: plus(m.stats.write_operations, 1),
            write_bytes: plus(m.stats.write_bytes, data.len()),
            ..m.stats
        },
        ..m
    };
    let (lies, rng) = if fua {
        drawn_chance(m1.rng, m.profile.cache.false_flush_probability_ppm)
    } else {
        (false, m1.rng)
    };
    let m2 = CardModel { rng, ..m1 };
    lemma_persisted_keeps(CardModel { pending: Seq::empty(), ..m2 }, m2.pending.push(write));
    lemma_persisted_keeps(m1, seq![write]);
    let m3 = if fua {
        with_fault(
            CardModel {
                stats: Stats { false_flushes: plus(m2.stats.false_flushes, 1), ..m2.stats },
                ..m2
            },
            FaultKind::FalseFua,
            operation,
            offset,
        )
    } else {
        m2
    };
    let full = CardModel { pending: m3.pending.push(write), ..m3 };
    let n = evictions(full.pending, full.profile.cache.max_bytes) as int;
    lemma_persisted_keeps(
        CardModel { pending: full.pending.skip(n), ..full },
        full.pending.take(n),
    );
}

/// No operation changes the profile of a card or loses the record of an erase
/// block.
pub proof fn operations_keep_the_card_sound(
    m: CardModel,
    offset: u64,
    data: Seq<u8>,
    fua: bool,
    length: nat,
    kind: FaultKind,
)
    requires
        sound_card(m),
    ensures
        sound_card(write_effects(m, offset, data, fua).card),
        sound_card(read_effects(m, offset, length).card),
        sound_card(flush_effects(m).card),
        sound_card(after_power_loss(m, kind).0),
{
    lemma_begin_keeps(m, offset);
    lemma_begin_keeps(m, 0);
    lemma_power_loss_keeps(m, kind);
    let (m1, steps, begun) = after_begin(m, offset);
    lemma_wait_keeps(m1, true);
    lemma_wait_keeps(m1, false);
    let m2 = after_wait(m1, true).0;
    if range_fault(m, offset, data.len()) is None {
        lemma_wear_keeps(m2, offset, data.len());
        let (m3, worn) = after_wear(m2, offset, data.len());
        if begun is Ok {
            lemma_transfer_keeps(m3, begun->Ok_0, offset, data, fua);
        }
    }
    let f1 = after_begin(m, 0).0;
    lemma_wait_keeps(f1, true);
    let f2 = after_wait(f1, true).0;
    let f3 = CardModel {
        stats: Stats { flush_operations: plus(f2.stats.flush_operations, 1), ..f2.stats },
        ..f2
    };
    let (lies, rng) = drawn_chance(f3.rng, m.profile.cache.false_flush_probability_ppm);
    let f4 = CardModel { rng, ..f3 };
    lemma_persisted_keeps(CardModel { pending: Seq::empty(), ..f4 }, f4.pending);
}

/// The contents of the backing file after some steps.
pub open spec fn backed(contents: Seq<u8>, steps: Seq<StepModel>) -> Seq<u8>
    decreases steps.len(),
{
    if steps.len() == 0 {
        contents
    } else {
        match steps.last() {
            StepModel::Write(write) => put(backed(contents, steps.drop_last()), write),
            StepModel::Sync(_) => backed(contents, steps.drop_last()),
        }
    }
}

/// What a client reads from a device: its backing file, with the writes that wait
/// in the cache laid over it.
pub open spec fn visible(contents: Seq<u8>, m: CardModel) -> Seq<u8> {
    put_all(contents, m.pending)
}

pub proof fn lemma_backed_writes(contents: Seq<u8>, writes: Seq<WriteModel>)
    ensures
        backed(contents, write_steps(writes)) == put_all(contents, writes),
    decreases writes.len(),
{
    if writes.len() > 0 {
        assert(write_steps(writes).drop_last() =~= write_steps(writes.drop_last()));
        lemma_backed_writes(contents, writes.drop_last());
    }
}

proof fn lemma_put_all_concat(contents: Seq<u8>, a: Seq<WriteModel>, b: Seq<WriteModel>)
    ensures
        put_all(contents, a + b) == put_all(put_all(contents, a), b),
    decreases b.len(),
{
    if b.len() == 0 {
        assert(a + b =~= a);
    } else {
        assert((a + b).drop_last() =~= a + b.drop_last());
        lemma_put_all_concat(contents, a, b.drop_last());
    }
}

proof fn lemma_put_all_len(contents: Seq<u8>, writes: Seq<WriteModel>)
    ensures
        put_all(contents, writes).len() == contents.len(),
    decreases writes.len(),
{
    if writes.len() > 0 {
        lemma_put_all_len(contents, writes.drop_last());
    }
}

pub proof fn lemma_sync_changes_nothing(contents: Seq<u8>, steps: Seq<StepModel>, point: SyncPoint)
    ensures
        backed(contents, steps.push(StepModel::Sync(point))) == backed(contents, steps),
{
    assert(steps.push(StepModel::Sync(point)).drop_last() =~= steps);
}

/// A read shows what is on the backing file with the cached writes over it.
pub proof fn reads_see_cached_writes(
    contents: Seq<u8>,
    m: CardModel,
    offset: u64,
    length: nat,
)
    requires
        offset + length <= contents.len(),
    ensures
        all_laid_over(
            contents.subrange(offset as int, offset + length),
            offset,
            m.pending,
        ) == visible(contents, m).subrange(offset as int, offset + length),
{
    lemma_laid_over(contents, m.pending, offset, length);
}

proof fn lemma_laid_over(contents: Seq<u8>, writes: Seq<WriteModel>, offset: u64, length: nat)
    requires
        offset + length <= contents.len(),
    ensures
        all_laid_over(contents.subrange(offset as int, offset + length), offset, writes)
            == put_all(contents, writes).subrange(offset as int, offset + length),
    decreases writes.len(),
{
    lemma_put_all_len(contents, writes);
    if writes.len() > 0 {
        lemma_laid_over(contents, writes.drop_last(), offset, length);
        lemma_put_all_len(contents, writes.drop_last());
        assert(all_laid_over(
            contents.subrange(offset as int, offset + length),
            offset,
            writes,
        ) =~= put_all(contents, writes).subrange(offset as int, offset + length));
    }
}

/// A flush that does what it says moves all cached writes to the backing file, and
/// changes nothing of what a client reads.
pub proof fn flush_moves_the_cache(contents: Seq<u8>, m: CardModel)
    requires
        flush_effects(m).fault is None,
        flush_effects(m).steps.len() > 0,
    ensures
        flush_effects(m).card.pending == Seq::<WriteModel>::empty(),
        backed(contents, flush_effects(m).steps) == visible(contents, m),
        visible(backed(contents, flush_effects(m).steps), flush_effects(m).card) == visible(
            contents,
            m,
        ),
{
    lemma_begin_keeps(m, 0);
    let m1 = after_begin(m, 0).0;
    lemma_wait_keeps(m1, true);
    let m2 = after_wait(m1, true).0;
    let m3 = CardModel {
        stats: Stats { flush_operations: plus(m2.stats.flush_operations, 1), ..m2.stats },
        ..m2
    };
    let (lies, rng) = drawn_chance(m3.rng, m.profile.cache.false_flush_probability_ppm);
    let m4 = CardModel { rng, ..m3 };
    lemma_persisted_keeps(CardModel { pending: Seq::empty(), ..m4 }, m4.pending);
    lemma_backed_writes(contents, m.pending);
    lemma_sync_changes_nothing(contents, write_steps(m.pending), SyncPoint::Flush);
}

/// A write that succeeds is what a client reads from then on, wherever its bytes are
/// kept, unless the card flips bits.
pub proof fn writes_are_read_back(
    contents: Seq<u8>,
    m: CardModel,
    offset: u64,
    data: Seq<u8>,
    fua: bool,
)
    requires
        sound_card(m),
        m.profile.faults.silent_corruption_probability_ppm == 0,
        write_effects(m, offset, data, fua).fault is None,
    ensures
        ({
            let effects = write_effects(m, offset, data, fua);
            visible(backed(contents, effects.steps), effects.card) == put(
                visible(contents, m),
                WriteModel { offset, data },
            )
        }),
{
    lemma_begin_keeps(m, offset);
    let (m1, steps, begun) = after_begin(m, offset);
    lemma_wait_keeps(m1, true);
    let m2 = after_wait(m1, true).0;
    lemma_wear_keeps(m2, offset, data.len());
    let m3 = after_wear(m2, offset, data.len()).0;
    let operation = begun->Ok_0;
    let (torn, rng1) = drawn_chance(m3.rng, m3.profile.faults.torn_write_probability_ppm);
    let m4 = CardModel { rng: rng1, ..m3 };
    let (m5, stored) = after_corruption(m4, operation, offset, data);
    assert(stored == data);
    lemma_store_visible(contents, m5, operation, offset, data, fua);
}

proof fn lemma_store_visible(
    contents: Seq<u8>,
    m: CardModel,
    operation: u64,
    offset: u64,
    data: Seq<u8>,
    fua: bool,
)
    requires
        !m.profile.cache.enabled ==> m.pending.len() == 0,
    ensures
        visible(
            backed(contents, after_store(m, operation, offset, data, fua).1),
            after_store(m, operation, offset, data, fua).0,
        ) == put(visible(contents, m), WriteModel { offset, data }),
{
    let write = WriteModel { offset, data };
    let m1 = CardModel {
        stats: Stats {
            write_operations: plus(m.stats.write_operations, 1),
            write_bytes: plus(m.stats.write_bytes, data.len()),
            ..m.stats
        },
        ..m
    };
    let (lies, rng) = if fua {
        drawn_chance(m1.rng, m.profile.cache.false_flush_probability_ppm)
    } else {
        (false, m1.rng)
    };
    let m2 = CardModel { rng, ..m1 };
    let all = m.pending.push(write);
    assert(all.drop_last() =~= m.pending);
    if !m.profile.cache.enabled {
        let one = seq![write];
        lemma_persisted_keeps(m1, one);
        lemma_backed_writes(contents, one);
        lemma_sync_changes_nothing(contents, write_steps(one), SyncPoint::Write);
        assert(one.drop_last() =~= Seq::<WriteModel>::empty());
        assert(put_all(contents, one.drop_last()) == contents);
    } else if fua && !lies {
        lemma_persisted_keeps(CardModel { pending: Seq::empty(), ..m2 }, all);
        lemma_backed_writes(contents, all);
        lemma_sync_changes_nothing(contents, write_steps(all), SyncPoint::FuaWrite);
    } else {
        let m3 = if fua {
            with_fault(
                CardModel {
                    stats: Stats { false_flushes: plus(m2.stats.false_flushes, 1), ..m2.stats },
                    ..m2
                },
                FaultKind::FalseFua,
                operation,
                offset,
            )
        } else {
            m2
        };
        let full = CardModel { pending: all, ..m3 };
        let n = evictions(all, full.profile.cache.max_bytes) as int;
        lemma_evictions_fit(all, full.profile.cache.max_bytes);
        lemma_persisted_keeps(CardModel { pending: all.skip(n), ..full }, all.take(n));
        lemma_backed_writes(contents, all.take(n));
        lemma_sync_changes_nothing(contents, write_steps(all.take(n)), SyncPoint::EvictedCache);
        if n == 0 {
            assert(all.take(0) =~= Seq::<WriteModel>::empty());
        }
        lemma_put_all_concat(contents, all.take(n), all.skip(n));
        assert(all.take(n) + all.skip(n) =~= all);
    }
}

pub proof fn lemma_evictions_fit(pending: Seq<WriteModel>, max: u64)
    ensures
        evictions(pending, max) <= pending.len(),
    decreases pending.len(),
{
    if pending.len() > 0 && cached_bytes(pending) > max {
        lemma_evictions_fit(pending.skip(1), max);
    }
}

/// Once the cache is empty, as it is behind a true flush, a power cut changes nothing
/// on the backing file.
pub proof fn flushed_data_survive_power_loss(contents: Seq<u8>, m: CardModel, kind: FaultKind)
    requires
        m.pending.len() == 0,
    ensures
        after_power_loss(m, kind).0.pending == Seq::<WriteModel>::empty(),
        backed(contents, after_power_loss(m, kind).1) == contents,
{
    lemma_power_loss_keeps(m, kind);
    let steps = after_power_loss(m, kind).1;
    let (m1, kept, torn) = cut_writes(CardModel { pending: Seq::empty(), ..m }, m.pending);
    assert(kept =~= Seq::<WriteModel>::empty());
    assert(steps =~= seq![StepModel::Sync(SyncPoint::PowerLoss)]);
    assert(steps.drop_last() =~= Seq::<StepModel>::empty());
    assert(backed(contents, steps.drop_last()) == contents);
}

proof fn lemma_cut_steps(m: CardModel, list: Seq<WriteModel>)
    ensures
        cut_setbacks(m, list).len() == cut_writes(m, list).2.len(),
        forall|i: int|
            0 <= i < cut_setbacks(m, list).len() ==> cut_back(
                m,
                #[trigger] cut_setbacks(m, list)[i],
            ),
        cut_writes(m, list).0.status == m.status,
        cut_writes(m, list).0.stats.power_losses == m.stats.power_losses,
        cut_writes(m, list).0.stats.last_fault_kind == m.stats.last_fault_kind,
        cut_writes(m, list).0.stats.last_fault_operation == m.stats.last_fault_operation,
    decreases list.len(),
{
    if list.len() > 0 {
        lemma_cut_steps(m, list.drop_last());
        lemma_cut_profile(m, list.drop_last());
        let write = list.last();
        let m1 = cut_writes(m, list.drop_last()).0;
        let (roll, rng) = drawn_below(m1.rng, 1_000_000);
        let (length, rng2) = drawn_tear(rng, write.data.len());
        let landed = WriteModel { offset: write.offset, data: write.data.take(length as int) };
        assert(seq![landed].drop_last() =~= Seq::<WriteModel>::empty());
        assert(with_persisted(CardModel { rng: rng2, ..m1 }, Seq::<WriteModel>::empty())
            == CardModel { rng: rng2, ..m1 });
    }
}

/// Whether a card that goes back is as one whose power was not cut.
pub open spec fn cut_back(m: CardModel, to: Setback) -> bool {
    &&& to.status == m.status
    &&& to.generation == m.generation
    &&& to.stats.operations == m.stats.operations
    &&& to.stats.power_losses == m.stats.power_losses
    &&& to.stats.last_fault_kind == m.stats.last_fault_kind
    &&& to.stats.last_fault_operation == m.stats.last_fault_operation
    &&& to.cached == m.pending.len() as usize
}

proof fn lemma_persisted_back(m: CardModel, writes: Seq<WriteModel>)
    ensures
        cut_back(m, setback_to(with_persisted(m, writes))),
    decreases writes.len(),
{
    if writes.len() > 0 {
        lemma_persisted_back(m, writes.drop_last());
        lemma_persisted_keeps(m, writes);
        lemma_persisted_keeps(m, writes.drop_last());
    }
}

/// Where a step of a power cut fails, the power is not cut: the card has the status,
/// the generation, the count of power cuts and the last fault that it had. Its cache
/// is empty.
pub proof fn failed_power_cuts_leave_the_power_on(
    m: CardModel,
    kind: FaultKind,
    i: int,
    rest: Seq<StepModel>,
)
    requires
        0 <= i < power_loss_setbacks(m).len(),
    ensures
        ({
            let after = set_back(after_power_loss(m, kind).0, power_loss_setbacks(m)[i], rest);
            &&& after.status == m.status
            &&& after.generation == m.generation
            &&& after.stats.operations == m.stats.operations
            &&& after.stats.power_losses == m.stats.power_losses
            &&& after.stats.last_fault_kind == m.stats.last_fault_kind
            &&& after.stats.last_fault_operation == m.stats.last_fault_operation
            &&& after.pending == Seq::<WriteModel>::empty()
        }),
{
    let start = CardModel { pending: Seq::empty(), ..m };
    let torn = cut_setbacks(start, m.pending);
    lemma_power_loss_keeps(m, kind);
    lemma_cut_steps(start, m.pending);
    lemma_cut_profile(start, m.pending);
    let (m1, order) = power_cut(m);
    lemma_persisted_back(m1, order);
    let to = power_loss_setbacks(m)[i];
    if i < torn.len() {
        assert(to == torn[i]);
    } else if i < torn.len() + order.len() {
        assert(to == write_setbacks(m1, order)[i - torn.len()]);
        lemma_persisted_back(m1, order.take(i - torn.len()));
    } else {
        assert(to == setback_to(with_persisted(m1, order)));
    }
    assert(cut_back(start, to));
    let after = set_back(after_power_loss(m, kind).0, to, rest);
    assert(after.pending =~= Seq::<WriteModel>::empty());
}

/// Where a write that leaves the cache fails, it is lost; those behind it wait in the
/// cache as before.
pub proof fn failed_evictions_keep_the_rest(m: CardModel, i: int)
    requires
        m.profile.cache.enabled,
        m.pending.len() <= usize::MAX,
        0 <= i < evict_setbacks(m).len(),
    ensures
        ({
            let (after, steps) = after_evict(m);
            let n = evictions(m.pending, m.profile.cache.max_bytes) as int;
            &&& steps.len() == evict_setbacks(m).len() == n + 1
            &&& set_back(after, evict_setbacks(m)[i], steps.skip(i + 1)).pending
                == m.pending.skip(if i < n {
                i + 1
            } else {
                n
            })
        }),
{
    let (after, steps) = after_evict(m);
    let n = evictions(m.pending, m.profile.cache.max_bytes) as int;
    let all = m.pending;
    lemma_evictions_fit(all, m.profile.cache.max_bytes);
    lemma_persisted_keeps(CardModel { pending: all.skip(n), ..m }, all.take(n));
    let to = evict_setbacks(m)[i];
    let rest = steps.skip(i + 1);
    if i < n {
        lemma_persisted_keeps(CardModel { pending: all.skip(i + 1), ..m }, all.take(i));
        assert(to.cached == all.len() - i - 1);
        lemma_first_writes(all.subrange(i + 1, n), seq![StepModel::Sync(SyncPoint::EvictedCache)]);
        assert(rest =~= write_steps(all.subrange(i + 1, n)).push(
            StepModel::Sync(SyncPoint::EvictedCache),
        ));
        assert(rest =~= write_steps(all.subrange(i + 1, n)) + seq![
            StepModel::Sync(SyncPoint::EvictedCache),
        ]);
        assert(all.subrange(i + 1, n) + all.skip(n) =~= all.skip(i + 1));
    } else {
        assert(to == setback_to(after));
        assert(Seq::<WriteModel>::empty() + all.skip(n) =~= all.skip(n));
    }
}

proof fn lemma_first_writes(writes: Seq<WriteModel>, rest: Seq<StepModel>)
    ensures
        first_writes(write_steps(writes) + rest, writes.len()) == writes,
    decreases writes.len(),
{
    if writes.len() > 0 {
        let later = writes.skip(1);
        lemma_first_writes(later, rest);
        assert((write_steps(writes) + rest).skip(1) =~= write_steps(later) + rest);
        assert(seq![writes[0]] + later =~= writes);
    }
}

/// Each step of an operation has something to go back to.
pub proof fn every_step_has_a_setback(
    m: CardModel,
    offset: u64,
    data: Seq<u8>,
    fua: bool,
    length: nat,
    kind: FaultKind,
)
    ensures
        written_setbacks(m, offset, data, fua).len() == write_effects(
            m,
            offset,
            data,
            fua,
        ).steps.len(),
        read_setbacks(m, offset, length).len() == read_effects(m, offset, length).steps.len(),
        flush_setbacks(m).len() == flush_effects(m).steps.len(),
        power_loss_setbacks(m).len() == after_power_loss(m, kind).1.len(),
{
    lemma_cut_steps(CardModel { pending: Seq::empty(), ..m }, m.pending);
    let begun = CardModel {
        stats: Stats { operations: plus(m.stats.operations, 1), ..m.stats },
        ..m
    };
    lemma_cut_steps(CardModel { pending: Seq::empty(), ..begun }, begun.pending);
    lemma_begin_steps(m, offset);
    lemma_begin_steps(m, 0);
    let (m1, _, started) = after_begin(m, offset);
    if started is Ok {
        let m2 = after_wait(m1, true).0;
        let m3 = after_wear(m2, offset, data.len()).0;
        lemma_transfer_steps(m3, started->Ok_0, offset, data, fua);
    }
}

proof fn lemma_begin_steps(m: CardModel, offset: u64)
    ensures
        begin_setbacks(m).len() == after_begin(m, offset).1.len(),
        after_begin(m, offset).2 is Ok ==> after_begin(m, offset).1.len() == 0,
{
    let begun = CardModel {
        stats: Stats { operations: plus(m.stats.operations, 1), ..m.stats },
        ..m
    };
    lemma_cut_steps(CardModel { pending: Seq::empty(), ..begun }, begun.pending);
}

proof fn lemma_transfer_steps(
    m: CardModel,
    operation: u64,
    offset: u64,
    data: Seq<u8>,
    fua: bool,
)
    ensures
        transfer_setbacks(m, operation, offset, data, fua).len() == after_transfer(
            m,
            operation,
            offset,
            data,
            fua,
        ).1.len(),
{
    let rng1 = drawn_chance(m.rng, m.profile.faults.torn_write_probability_ppm).1;
    let (m2, stored) = after_corruption(CardModel { rng: rng1, ..m }, operation, offset, data);
    let write = WriteModel { offset, data: stored };
    let pending = m2.pending.push(write);
    lemma_evictions_fit(pending, m2.profile.cache.max_bytes);
}

} // verus!
