use ftwdb::sd_card::{
    service_micros, BackingStep, CardAction, DeviceError, DeviceStatus, ErrorCode, FaultKind,
    SdCard,
};
use ftwdb::sd_command::{parse_control, schedule_power_loss, ControlCommand};
use ftwdb::sd_profile::{
    CacheProfile, ConfigError, DeviceProfile, FaultProfile, IoProfile, Profile, WearProfile,
    PROBABILITY_SCALE,
};
use ftwdb::sd_random::{torn_length, XorShift64};

fn profile() -> Profile {
    Profile {
        schema_version: 1,
        name: "test".to_owned(),
        device: DeviceProfile {
            size_bytes: 64 * 1024,
            logical_block_bytes: 512,
            erase_block_bytes: 4096,
        },
        read: no_delay(),
        write: no_delay(),
        cache: CacheProfile {
            enabled: true,
            max_bytes: 16 * 1024,
            false_flush_probability_ppm: 0,
            power_loss_persist_probability_ppm: 0,
            power_loss_torn_probability_ppm: 0,
            power_loss_reorder_probability_ppm: 0,
        },
        wear: WearProfile {
            enabled: false,
            accelerated_factor: 1,
            warning_cycles: 100,
            failure_cycles: 200,
            worn_eio_probability_ppm: 0,
            read_only_after_bad_blocks: 0,
        },
        faults: FaultProfile {
            eio_probability_ppm: 0,
            torn_write_probability_ppm: 0,
            silent_corruption_probability_ppm: 0,
            power_loss_after_ops: None,
            read_only_after_ops: None,
            disappear_after_ops: None,
        },
    }
}

fn no_delay() -> IoProfile {
    IoProfile {
        bandwidth_bytes_per_second: 0,
        iops: 0,
        base_latency_us: 0,
        jitter_latency_us: 0,
        spike_probability_ppm: 0,
        spike_latency_us_min: 0,
        spike_latency_us_max: 0,
    }
}

/// A card over a backing file that is held in memory.
struct Bench {
    card: SdCard,
    raw: Vec<u8>,
}

impl Bench {
    fn open(profile: Profile, seed: u64) -> Self {
        let raw = vec![0; profile.device.size_bytes as usize];
        Bench { card: SdCard::open(profile, seed, 0).unwrap(), raw }
    }

    fn carry_out(&mut self, steps: Vec<BackingStep>) {
        for step in steps {
            if let BackingStep::Write(write) = step {
                let at = write.offset as usize;
                self.raw[at..at + write.data.len()].copy_from_slice(&write.data);
            }
        }
    }

    fn act(&mut self, action: CardAction) -> Result<(), DeviceError> {
        self.carry_out(action.steps);
        action.outcome
    }

    fn write(&mut self, offset: u64, data: Vec<u8>, fua: bool) -> Result<(), DeviceError> {
        let action = self.card.write(offset, data, fua);
        self.act(action)
    }

    fn read(&mut self, offset: u64, length: usize) -> Result<Vec<u8>, DeviceError> {
        let action = self.card.begin_read(offset, length);
        self.act(action)?;
        let data = self.raw[offset as usize..offset as usize + length].to_vec();
        Ok(self.card.finish_read(offset, data))
    }

    fn flush(&mut self) -> Result<(), DeviceError> {
        let action = self.card.flush();
        self.act(action)
    }

    fn power_loss(&mut self) {
        let steps = self.card.power_loss();
        self.carry_out(steps);
    }
}

#[test]
fn invalid_probability_is_rejected() {
    let mut profile = profile();
    profile.validate().unwrap();
    profile.faults.eio_probability_ppm = PROBABILITY_SCALE + 1;
    assert!(profile.validate().is_err());
}

#[test]
fn flush_moves_cached_data_to_the_backing_file() {
    let mut bench = Bench::open(profile(), 42);
    bench.write(1024, vec![1, 2, 3, 4], false).unwrap();
    assert_eq!(bench.read(1024, 4).unwrap(), [1, 2, 3, 4]);
    assert_eq!(&bench.raw[1024..1028], &[0, 0, 0, 0]);
    bench.flush().unwrap();
    assert_eq!(&bench.raw[1024..1028], &[1, 2, 3, 4]);
}

#[test]
fn fua_preserves_order_with_older_overlapping_cached_writes() {
    let mut bench = Bench::open(profile(), 43);
    bench.write(1024, vec![1; 512], false).unwrap();
    bench.write(1024, vec![2; 512], true).unwrap();

    assert_eq!(bench.read(1024, 512).unwrap(), vec![2; 512]);
    bench.power_loss();
    bench.card.reset();
    assert_eq!(bench.read(1024, 512).unwrap(), vec![2; 512]);
}

#[test]
fn false_flush_can_lose_acknowledged_data_on_power_loss() {
    let mut settings = profile();
    settings.cache.false_flush_probability_ppm = PROBABILITY_SCALE;
    let mut bench = Bench::open(settings, 7);
    bench.write(0, vec![9; 512], false).unwrap();
    bench.flush().unwrap();
    bench.power_loss();
    bench.card.reset();
    assert_eq!(bench.read(0, 512).unwrap(), vec![0; 512]);
    let stats = bench.card.stats();
    assert_eq!(stats.false_flushes, 1);
    assert_eq!(stats.dropped_operations, 1);
}

#[test]
fn explicit_torn_write_returns_eio_and_persists_only_a_prefix() {
    let mut settings = profile();
    settings.faults.torn_write_probability_ppm = PROBABILITY_SCALE;
    let mut bench = Bench::open(settings, 11);
    let error = bench.write(0, vec![5; 512], false).unwrap_err();
    assert_eq!(error.code, ErrorCode::Io);
    let written = bench.raw[..512].iter().take_while(|byte| **byte == 5).count();
    assert!(written > 0 && written < 512);
    assert_eq!(bench.card.stats().injected_torn_operations, 1);
}

#[test]
fn wear_can_make_the_device_read_only() {
    let mut settings = profile();
    settings.cache.enabled = false;
    settings.wear.enabled = true;
    settings.wear.warning_cycles = 1;
    settings.wear.failure_cycles = 2;
    settings.wear.read_only_after_bad_blocks = 1;
    let mut bench = Bench::open(settings, 13);
    bench.write(0, vec![1; 512], false).unwrap();
    let error = bench.write(0, vec![2; 512], false).unwrap_err();
    assert_eq!(error.code, ErrorCode::ReadOnly);
    assert_eq!(bench.card.status(), DeviceStatus::ReadOnly);
    assert_eq!(bench.card.stats().bad_blocks, 1);
}

#[test]
fn scheduled_power_loss_is_reproducible() {
    let mut settings = profile();
    settings.faults.power_loss_after_ops = Some(2);
    for _ in 0..2 {
        let mut bench = Bench::open(settings.clone(), 99);
        bench.write(0, vec![1; 512], false).unwrap();
        let error = bench.write(512, vec![2; 512], false).unwrap_err();
        assert!(error.disconnects());
        let stats = bench.card.stats();
        assert_eq!(stats.last_fault_operation, Some(2));
        assert_eq!(stats.dropped_operations, 1);
    }
}

#[test]
fn flushed_data_survive_a_loss_of_power() {
    let mut bench = Bench::open(profile(), 5);
    bench.write(512, vec![7; 512], false).unwrap();
    bench.flush().unwrap();
    bench.write(512, vec![8; 512], false).unwrap();
    assert_eq!(bench.card.cached(), (1, 512));
    bench.power_loss();
    assert_eq!(bench.card.status(), DeviceStatus::Offline);
    assert!(bench.read(512, 512).unwrap_err().disconnects());
    bench.card.reset();
    assert_eq!(bench.read(512, 512).unwrap(), vec![7; 512]);
}

#[test]
fn transfers_outside_the_device_are_refused() {
    let mut bench = Bench::open(profile(), 5);
    assert_eq!(bench.write(64 * 1024, vec![1], false).unwrap_err().code, ErrorCode::NoSpace);
    assert_eq!(bench.read(u64::MAX, 1).unwrap_err().code, ErrorCode::Invalid);
    assert_eq!(bench.card.stats().operations, 0);
    bench.card.set_read_only(true);
    let error = bench.write(0, vec![1], false).unwrap_err();
    assert_eq!((error.code, error.code.errno()), (ErrorCode::ReadOnly, 30));
    bench.card.set_read_only(false);
    bench.write(0, vec![1], false).unwrap();
}

#[test]
fn backing_files_of_another_size_are_refused() {
    let error = SdCard::open(profile(), 1, 17).unwrap_err();
    assert_eq!(error.message(), "backing file has 17 bytes; profile needs 65536");
    assert_eq!(error.code, ErrorCode::Invalid);
    assert!(SdCard::open(profile(), 1, 65536).is_ok());
}

#[test]
fn the_generator_never_rests_at_zero() {
    let mut generator = XorShift64::new(0);
    assert_ne!(generator.next(), 0);
    let mut one = XorShift64::new(1);
    assert_eq!(one.next(), 1_082_269_761);
    assert!(!one.chance(0));
    assert!(one.chance(PROBABILITY_SCALE));
    assert_eq!(one.below(0), 0);
    for _ in 0..50 {
        assert!(one.below(7) < 7);
        let torn = torn_length(&mut one, 512);
        assert!(torn > 0 && torn < 512);
    }
}

#[test]
fn service_time_is_the_slower_of_two_limits() {
    let io = IoProfile { bandwidth_bytes_per_second: 1_000_000, iops: 100, ..no_delay() };
    assert_eq!(service_micros(&io, 0), 10_000);
    assert_eq!(service_micros(&io, 20_000), 20_000);
    assert_eq!(service_micros(&no_delay(), 20_000), 0);
}

#[test]
fn profiles_say_what_is_wrong_with_them() {
    let mut bad = profile();
    bad.schema_version = 2;
    let error = bad.validate().unwrap_err();
    assert!(matches!(&error, ConfigError::Invalid(_)));
    assert!(error.message().contains("schema_version"));
    let error = SdCard::open(bad, 1, 0).unwrap_err();
    assert!(error.message().contains("schema_version"));
}

#[test]
fn control_lines_act_on_the_card() {
    let mut bench = Bench::open(profile(), 3);
    bench.write(0, vec![4; 4], false).unwrap();
    let (command, name) = parse_control("flush\n").unwrap();
    assert_eq!((command, name.as_str()), (ControlCommand::Flush, "flush"));
    let action = command.apply(&mut bench.card);
    bench.act(action).unwrap();
    assert_eq!(&bench.raw[..4], &[4; 4]);

    let (command, _) = parse_control("power-loss").unwrap();
    assert!(command.disconnects());
    let action = command.apply(&mut bench.card);
    bench.act(action).unwrap();
    assert_eq!(bench.card.status(), DeviceStatus::Offline);
    assert_eq!(bench.card.stats().last_fault_kind, Some(FaultKind::PowerLoss));
    let action = ControlCommand::Reset.apply(&mut bench.card);
    bench.act(action).unwrap();
    assert_eq!(bench.card.status(), DeviceStatus::Online);
    assert!(ControlCommand::Shutdown.stops(true));
    assert!(!ControlCommand::Shutdown.stops(false));
    let (command, name) = parse_control(" boil ").unwrap();
    assert_eq!((command, name.as_str()), (ControlCommand::Unknown, "boil"));
    let before = bench.card.stats();
    let action = command.apply(&mut bench.card);
    assert!(action.steps.is_empty());
    assert_eq!(bench.card.stats(), before);
}

#[test]
fn failed_steps_set_the_card_back() {
    let evicting = || {
        let mut profile = profile();
        profile.cache.max_bytes = 1024;
        let mut bench = Bench::open(profile, 42);
        bench.write(0, vec![1; 512], false).unwrap();
        bench.write(512, vec![2; 512], false).unwrap();
        let action = bench.card.write(1024, vec![3; 2048], false);
        assert_eq!(action.steps.len(), 4);
        (bench, action.steps)
    };
    let (mut bench, steps) = evicting();
    bench.card.step_failed(0, steps.into_iter().skip(1).collect());
    assert_eq!(bench.card.cached(), (2, 2560));
    assert_eq!(bench.card.stats().persisted_bytes, 0);
    assert_eq!(bench.read(512, 512).unwrap(), vec![2; 512]);
    assert_eq!(bench.read(0, 512).unwrap(), vec![0; 512]);

    let (mut bench, steps) = evicting();
    bench.card.step_failed(1, steps.into_iter().skip(2).collect());
    assert_eq!(bench.card.cached(), (1, 2048));
    assert_eq!(bench.card.stats().persisted_bytes, 512);

    let (mut bench, _) = evicting();
    bench.card.step_failed(3, Vec::new());
    assert_eq!(bench.card.cached(), (0, 0));
    assert_eq!(bench.card.stats().persisted_bytes, 3072);
    let before = bench.card.stats();
    bench.card.step_failed(0, Vec::new());
    assert_eq!(bench.card.stats(), before);
}

#[test]
fn a_failed_flush_loses_what_was_cached() {
    let mut bench = Bench::open(profile(), 42);
    bench.write(0, vec![1; 512], false).unwrap();
    bench.write(512, vec![2; 512], false).unwrap();
    let action = bench.card.flush();
    assert_eq!(action.steps.len(), 3);
    bench.card.step_failed(1, action.steps.into_iter().skip(2).collect());
    assert_eq!(bench.card.cached(), (0, 0));
    let stats = bench.card.stats();
    assert_eq!((stats.persisted_bytes, stats.flush_operations), (512, 1));
}

#[test]
fn a_failed_power_cut_leaves_the_power_on() {
    let mut bench = Bench::open(profile(), 42);
    bench.write(0, vec![1; 512], false).unwrap();
    let steps = bench.card.power_loss();
    assert_eq!(bench.card.status(), DeviceStatus::Offline);
    bench.card.step_failed(steps.len() - 1, Vec::new());
    assert_eq!(bench.card.status(), DeviceStatus::Online);
    assert_eq!(bench.card.generation(), 0);
    assert_eq!(bench.card.stats().power_losses, 0);
    assert_eq!(bench.card.stats().last_fault_kind, None);
    assert_eq!(bench.card.cached(), (0, 0));
}

#[test]
fn power_losses_are_scheduled_from_the_first_operation_on() {
    let mut profile = profile();
    assert_eq!(schedule_power_loss(&mut profile, None), Ok(()));
    assert_eq!(
        schedule_power_loss(&mut profile, Some(0)),
        Err("power-loss operation must be positive")
    );
    assert_eq!(profile.faults.power_loss_after_ops, None);
    assert_eq!(schedule_power_loss(&mut profile, Some(3)), Ok(()));
    assert_eq!(profile.faults.power_loss_after_ops, Some(3));
}
