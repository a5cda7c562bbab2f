//! Profiles of an emulated SD card: its size, speed, cache, wear and faults.
use crate::text::{is_blank, put_decimal};
#[allow(unused_imports)]
use crate::text::{blank, decimal};
use vstd::prelude::*;
use vstd::string::*;

verus! {

/// What a probability of one is in parts per million.
pub const PROBABILITY_SCALE: u32 = 1_000_000;

#[derive(Debug)]
pub struct Profile {
    pub schema_version: u32,
    pub name: String,
    pub device: DeviceProfile,
    pub read: IoProfile,
    pub write: IoProfile,
    pub cache: CacheProfile,
    pub wear: WearProfile,
    pub faults: FaultProfile,
}

impl Clone for Profile {
    fn clone(&self) -> (copy: Self)
        ensures
            copy.name@ == self.name@,
            copy.schema_version == self.schema_version,
            copy.device == self.device,
            copy.read == self.read,
            copy.write == self.write,
            copy.cache == self.cache,
            copy.wear == self.wear,
            copy.faults == self.faults,
    {
        Profile {
            schema_version: self.schema_version,
            name: self.name.clone(),
            device: self.device,
            read: self.read,
            write: self.write,
            cache: self.cache,
            wear: self.wear,
            faults: self.faults,
        }
    }
}

#[derive(Clone, Copy, Debug, PartialEq, Eq, Structural)]
pub struct DeviceProfile {
    pub size_bytes: u64,
    pub logical_block_bytes: u64,
    pub erase_block_bytes: u64,
}

#[derive(Clone, Copy, Debug, PartialEq, Eq, Structural)]
pub struct IoProfile {
    pub bandwidth_bytes_per_second: u64,
    pub iops: u64,
    pub base_latency_us: u64,
    pub jitter_latency_us: u64,
    pub spike_probability_ppm: u32,
    pub spike_latency_us_min: u64,
    pub spike_latency_us_max: u64,
}

#[derive(Clone, Copy, Debug, PartialEq, Eq, Structural)]
pub struct CacheProfile {
    pub enabled: bool,
    pub max_bytes: u64,
    pub false_flush_probability_ppm: u32,
    pub power_loss_persist_probability_ppm: u32,
    pub power_loss_torn_probability_ppm: u32,
    pub power_loss_reorder_probability_ppm: u32,
}

#[derive(Clone, Copy, Debug, PartialEq, Eq, Structural)]
pub struct WearProfile {
    pub enabled: bool,
    pub accelerated_factor: u64,
    pub warning_cycles: u64,
    pub failure_cycles: u64,
    pub worn_eio_probability_ppm: u32,
    pub read_only_after_bad_blocks: u64,
}

#[derive(Clone, Copy, Debug, PartialEq, Eq, Structural)]
pub struct FaultProfile {
    pub eio_probability_ppm: u32,
    pub torn_write_probability_ppm: u32,
    pub silent_corruption_probability_ppm: u32,
    pub power_loss_after_ops: Option<u64>,
    pub read_only_after_ops: Option<u64>,
    pub disappear_after_ops: Option<u64>,
}

/// Why a profile cannot be used.
#[derive(Debug, PartialEq, Eq)]
pub enum ConfigError {
    /// What the operating system said.
    Io(String),
    /// What the JSON reader said.
    Json(String),
    Invalid(String),
}

/// What a profile error says.
pub open spec fn config_text(error: ConfigError) -> Seq<char> {
    match error {
        ConfigError::Io(reason) => "cannot read profile: "@ + reason@,
        ConfigError::Json(reason) => "invalid profile JSON: "@ + reason@,
        ConfigError::Invalid(reason) => reason@,
    }
}

impl ConfigError {
    /// What the error says.
    pub fn message(&self) -> (text: String)
        ensures
            text@ == config_text(*self),
    {
        let mut text = String::new();
        match self {
            ConfigError::Io(reason) => {
                text.append("cannot read profile: ");
                text.append(reason.as_str());
            },
            ConfigError::Json(reason) => {
                text.append("invalid profile JSON: ");
                text.append(reason.as_str());
            },
            ConfigError::Invalid(reason) => {
                text.append(reason.as_str());
            },
        }
        assert(text@ =~= config_text(*self));
        text
    }
}

/// Whether a number is a power of two.
pub open spec fn power_of_two(n: nat) -> bool
    decreases n,
{
    n == 1 || (n > 0 && n % 2 == 0 && power_of_two(n / 2))
}

fn is_power_of_two(n: u64) -> (yes: bool)
    ensures
        yes == power_of_two(n as nat),
    decreases n,
{
    if n == 1 {
        true
    } else if n == 0 || n % 2 != 0 {
        false
    } else {
        is_power_of_two(n / 2)
    }
}

/// What is wrong with a probability, if anything.
pub open spec fn probability_fault(name: Seq<char>, value: u32) -> Option<Seq<char>> {
    if value > 1_000_000 {
        Some(name + " exceeds "@ + decimal(1_000_000) + " ppm"@)
    } else {
        None
    }
}

/// What is wrong with the timing of reads or writes, if anything.
pub open spec fn io_fault(name: Seq<char>, io: IoProfile) -> Option<Seq<char>> {
    match probability_fault(name + ".spike_probability_ppm"@, io.spike_probability_ppm) {
        Some(text) => Some(text),
        None => if io.spike_latency_us_min > io.spike_latency_us_max {
            Some(name + " spike minimum exceeds maximum"@)
        } else {
            None
        },
    }
}

/// The first of two faults.
pub open spec fn or_else(first: Option<Seq<char>>, second: Option<Seq<char>>) -> Option<Seq<char>> {
    match first {
        Some(text) => Some(text),
        None => second,
    }
}

/// What is wrong with the sizes of a device and its cache, if anything.
pub open spec fn device_fault(p: Profile) -> Option<Seq<char>> {
    let d = p.device;
    if d.size_bytes == 0 {
        Some("device size must be positive"@)
    } else if d.logical_block_bytes < 512 || !power_of_two(d.logical_block_bytes as nat) {
        Some("logical block size must be a power of two of at least 512 bytes"@)
    } else if d.erase_block_bytes < d.logical_block_bytes || d.erase_block_bytes
        % d.logical_block_bytes != 0 {
        Some("erase block size must be a multiple of the logical block size"@)
    } else if d.size_bytes % d.logical_block_bytes != 0 {
        Some("device size must be a multiple of the logical block size"@)
    } else if p.cache.max_bytes > d.size_bytes {
        Some("cache cannot be larger than the device"@)
    } else {
        None
    }
}

/// The first probability above one.
pub open spec fn probabilities_fault(p: Profile) -> Option<Seq<char>> {
    or_else(
        probability_fault("cache.false_flush_probability_ppm"@, p.cache.false_flush_probability_ppm),
        or_else(
        probability_fault("cache.power_loss_persist_probability_ppm"@, p.cache.power_loss_persist_probability_ppm),
        or_else(
        probability_fault("cache.power_loss_torn_probability_ppm"@, p.cache.power_loss_torn_probability_ppm),
        or_else(
        probability_fault("cache.power_loss_reorder_probability_ppm"@, p.cache.power_loss_reorder_probability_ppm),
        or_else(
        probability_fault("wear.worn_eio_probability_ppm"@, p.wear.worn_eio_probability_ppm),
        or_else(
        probability_fault("faults.eio_probability_ppm"@, p.faults.eio_probability_ppm),
        or_else(
        probability_fault("faults.torn_write_probability_ppm"@, p.faults.torn_write_probability_ppm),
        probability_fault("faults.silent_corruption_probability_ppm"@, p.faults.silent_corruption_probability_ppm),
    ),
    ),
    ),
    ),
    ),
    ),
    )
}

/// What is wrong with how a device wears, if anything.
pub open spec fn wear_fault(w: WearProfile) -> Option<Seq<char>> {
    if w.enabled && w.accelerated_factor == 0 {
        Some("wear accelerated_factor must be positive"@)
    } else if w.enabled && w.warning_cycles >= w.failure_cycles {
        Some("wear warning_cycles must be below failure_cycles"@)
    } else {
        None
    }
}

/// The first rule that a profile breaks.
pub open spec fn profile_fault(p: Profile) -> Option<Seq<char>> {
    if p.schema_version != 1 {
        Some("schema_version must be 1, got "@ + decimal(p.schema_version as nat))
    } else if blank(p.name@) {
        Some("profile name is empty"@)
    } else {
        or_else(
            device_fault(p),
            or_else(
                io_fault("read"@, p.read),
                or_else(
                    io_fault("write"@, p.write),
                    or_else(
                        probabilities_fault(p),
                        if p.cache.power_loss_persist_probability_ppm
                            + p.cache.power_loss_torn_probability_ppm > 1_000_000 {
                            Some(
                                "power-loss persist and torn probabilities exceed 1,000,000 ppm"@,
                            )
                        } else {
                            wear_fault(p.wear)
                        },
                    ),
                ),
            ),
        )
    }
}

/// Whether an outcome reports a fault, if there is one.
pub open spec fn says_fault(outcome: Result<(), ConfigError>, fault: Option<Seq<char>>) -> bool {
    match fault {
        Some(text) => outcome matches Err(ConfigError::Invalid(reason)) && reason@ == text,
        None => outcome is Ok,
    }
}

fn invalid(reason: &str) -> (outcome: Result<(), ConfigError>)
    ensures
        says_fault(outcome, Some(reason@)),
{
    Err(ConfigError::Invalid(reason.to_owned()))
}

fn validate_probability(name: &str, value: u32) -> (outcome: Result<(), ConfigError>)
    ensures
        says_fault(outcome, probability_fault(name@, value)),
{
    if value > PROBABILITY_SCALE {
        let mut text = String::new();
        text.append(name);
        text.append(" exceeds ");
        put_decimal(&mut text, PROBABILITY_SCALE as u128);
        text.append(" ppm");
        assert(text@ =~= name@ + " exceeds "@ + decimal(1_000_000) + " ppm"@);
        return Err(ConfigError::Invalid(text));
    }
    Ok(())
}

fn validate_io(name: &str, profile: &IoProfile) -> (outcome: Result<(), ConfigError>)
    ensures
        says_fault(outcome, io_fault(name@, *profile)),
{
    let mut field = String::new();
    field.append(name);
    field.append(".spike_probability_ppm");
    assert(field@ =~= name@ + ".spike_probability_ppm"@);
    validate_probability(field.as_str(), profile.spike_probability_ppm)?;
    if profile.spike_latency_us_min > profile.spike_latency_us_max {
        let mut text = String::new();
        text.append(name);
        text.append(" spike minimum exceeds maximum");
        assert(text@ =~= name@ + " spike minimum exceeds maximum"@);
        return Err(ConfigError::Invalid(text));
    }
    Ok(())
}

impl Profile {
    /// Checks that the profile describes a device that can be emulated.
    pub fn validate(&self) -> (outcome: Result<(), ConfigError>)
        ensures
            says_fault(outcome, profile_fault(*self)),
    {
        if self.schema_version != 1 {
            let mut text = String::new();
            text.append("schema_version must be 1, got ");
            put_decimal(&mut text, self.schema_version as u128);
            assert(text@ =~= "schema_version must be 1, got "@ + decimal(
                self.schema_version as nat,
            ));
            return Err(ConfigError::Invalid(text));
        }
        if is_blank(self.name.as_str()) {
            return invalid("profile name is empty");
        }
        if self.device.size_bytes == 0 {
            return invalid("device size must be positive");
        }
        if self.device.logical_block_bytes < 512 || !is_power_of_two(
            self.device.logical_block_bytes,
        ) {
            return invalid("logical block size must be a power of two of at least 512 bytes");
        }
        if self.device.erase_block_bytes < self.device.logical_block_bytes
            || self.device.erase_block_bytes % self.device.logical_block_bytes != 0 {
            return invalid("erase block size must be a multiple of the logical block size");
        }
        if self.device.size_bytes % self.device.logical_block_bytes != 0 {
            return invalid("device size must be a multiple of the logical block size");
        }
        if self.cache.max_bytes > self.device.size_bytes {
            return invalid("cache cannot be larger than the device");
        }
        validate_io("read", &self.read)?;
        validate_io("write", &self.write)?;
        validate_probability("cache.false_flush_probability_ppm", self.cache.false_flush_probability_ppm)?;
        validate_probability("cache.power_loss_persist_probability_ppm", self.cache.power_loss_persist_probability_ppm)?;
        validate_probability("cache.power_loss_torn_probability_ppm", self.cache.power_loss_torn_probability_ppm)?;
        validate_probability("cache.power_loss_reorder_probability_ppm", self.cache.power_loss_reorder_probability_ppm)?;
        validate_probability("wear.worn_eio_probability_ppm", self.wear.worn_eio_probability_ppm)?;
        validate_probability("faults.eio_probability_ppm", self.faults.eio_probability_ppm)?;
        validate_probability("faults.torn_write_probability_ppm", self.faults.torn_write_probability_ppm)?;
        validate_probability("faults.silent_corruption_probability_ppm", self.faults.silent_corruption_probability_ppm)?;
        let power_loss_total: u64 = self.cache.power_loss_persist_probability_ppm as u64
            + self.cache.power_loss_torn_probability_ppm as u64;
        if power_loss_total > PROBABILITY_SCALE as u64 {
            return invalid("power-loss persist and torn probabilities exceed 1,000,000 ppm");
        }
        if self.wear.enabled {
            if self.wear.accelerated_factor == 0 {
                return invalid("wear accelerated_factor must be positive");
            }
            if self.wear.warning_cycles >= self.wear.failure_cycles {
                return invalid("wear warning_cycles must be below failure_cycles");
            }
        }
        Ok(())
    }
}

} // verus!
