//! Manifests: which rollups are live, one file for each generation.
//!
//! A manifest file is a header of 24 bytes and the encoded manifest. The newest
//! generation that reads without a fault counts, so a torn newest file falls back to
//! the one before.
use crate::bytes::{put_bytes, read_le};
#[allow(unused_imports)]
use crate::bytes::{lemma_pow256_values, pow256};
use crate::checksum::crc32;
#[allow(unused_imports)]
use crate::checksum::crc32_of;
use crate::error::{corruption, Error};
#[allow(unused_imports)]
use crate::error::{corrupt_at, invalid_model, unserializable};
use crate::fields::put_fields;
#[allow(unused_imports)]
use crate::fields::{field, fields_fit, lemma_fields, offset_of, packed, packed_to};
use crate::model::RollupResolution;
#[allow(unused_imports)]
use crate::model::ResolutionModel;
use crate::safe_path::is_single_component;
#[allow(unused_imports)]
use crate::safe_path::single_component;
use crate::text::put_decimal;
#[allow(unused_imports)]
use crate::text::{decimal, digit};
use crate::text_scan::{characters, characters_are, parse_unsigned};
#[allow(unused_imports)]
use crate::text_scan::{digits_value, unsigned_value, IntegerFault};
use vstd::prelude::*;
use vstd::string::*;

verus! {

/// `WMAN0001`, least significant byte first.
pub const MANIFEST_MAGIC: u64 = 0x3130_3030_4e41_4d57;

pub const MANIFEST_VERSION: u16 = 1;

pub const MANIFEST_HEADER_BYTES: usize = 24;

pub const MAX_MANIFEST_BYTES: usize = 67_108_864;

/// One rollup file, and what it was made from.
#[derive(Debug, PartialEq, Eq)]
pub struct RollupDescriptor {
    pub file: String,
    pub series_id: u64,
    pub resolution: RollupResolution,
    pub start: i64,
    pub end: i64,
    pub source_commit: u64,
    pub source_points: u64,
    pub active: bool,
}

#[derive(Debug, PartialEq, Eq)]
pub struct Manifest {
    pub generation: u64,
    pub rollups: Vec<RollupDescriptor>,
}

impl Default for Manifest {
    fn default() -> (manifest: Self)
        ensures
            manifest.generation == 0,
            manifest.rollups@ == Seq::<RollupDescriptor>::empty(),
    {
        Manifest { generation: 0, rollups: Vec::new() }
    }
}

/// What is wrong with a descriptor.
pub open spec fn descriptor_fault(rollup: RollupDescriptor) -> Option<Seq<char>> {
    if !single_component(rollup.file@) {
        Some("manifest rollup filename must be a single safe path component"@)
    } else if rollup.series_id == 0 || rollup.end <= rollup.start {
        Some("manifest rollup descriptor has invalid identity or bounds"@)
    } else {
        None
    }
}

/// What is wrong with the first descriptor of some with which anything is.
pub open spec fn descriptors_fault(rollups: Seq<RollupDescriptor>) -> Option<Seq<char>>
    decreases rollups.len(),
{
    if rollups.len() == 0 {
        None
    } else {
        match descriptors_fault(rollups.drop_last()) {
            Some(reason) => Some(reason),
            None => descriptor_fault(rollups.last()),
        }
    }
}

/// Refuses a manifest with a file outside its directory or with impossible bounds.
pub fn validate_manifest(manifest: &Manifest) -> (outcome: Result<(), Error>)
    ensures
        match descriptors_fault(manifest.rollups@) {
            None => outcome is Ok,
            Some(reason) => outcome matches Err(error) && invalid_model(error, reason),
        },
{
    let ghost all = manifest.rollups@;
    let mut i: usize = 0;
    let mut fault: Option<&'static str> = None;
    while i < manifest.rollups.len()
        invariant
            i <= all.len(),
            all == manifest.rollups@,
            descriptors_fault(all.take(i as int)) == match fault {
                Some(text) => Some(text@),
                None => None,
            },
        decreases all.len() - i,
    {
        proof {
            assert(all.take(i + 1).drop_last() =~= all.take(i as int));
        }
        let rollup = &manifest.rollups[i];
        if fault.is_none() {
            if !is_single_component(rollup.file.as_str()) {
                fault = Some("manifest rollup filename must be a single safe path component");
            } else if rollup.series_id == 0 || rollup.end <= rollup.start {
                fault = Some("manifest rollup descriptor has invalid identity or bounds");
            }
        }
        i = i + 1;
    }
    assert(all.take(all.len() as int) =~= all);
    match fault {
        None => Ok(()),
        Some(reason) => Err(Error::InvalidModel(reason.to_owned())),
    }
}

/// The fields of a manifest header, but for its own checksum.
pub open spec fn manifest_fields(payload: Seq<u8>) -> Seq<(u128, usize)> {
    seq![
        (MANIFEST_MAGIC as u128, 8usize),
        (MANIFEST_VERSION as u128, 2usize),
        (0u128, 2usize),
        (payload.len() as u128, 4usize),
        (crc32_of(payload) as u128, 4usize),
    ]
}

/// The bytes of a manifest file.
pub open spec fn manifest_bytes(payload: Seq<u8>) -> Seq<u8> {
    let fields = manifest_fields(payload);
    packed(fields) + packed(seq![(crc32_of(packed(fields)) as u128, 4usize)]) + payload
}

/// What is wrong with a manifest file.
pub open spec fn manifest_fault(file: Seq<u8>) -> Option<Seq<char>> {
    if file.len() < MANIFEST_HEADER_BYTES {
        Some("manifest is too small"@)
    } else if field(file, 0, 8) != MANIFEST_MAGIC {
        Some("invalid manifest magic"@)
    } else if field(file, 8, 2) != MANIFEST_VERSION {
        Some("unsupported manifest version"@)
    } else if crc32_of(file.subrange(0, 20)) != field(file, 20, 4) {
        Some("manifest header checksum mismatch"@)
    } else if field(file, 12, 4) > MAX_MANIFEST_BYTES || file.len() != MANIFEST_HEADER_BYTES
        + field(file, 12, 4) {
        Some("invalid manifest length"@)
    } else if crc32_of(file.skip(24)) != field(file, 16, 4) {
        Some("manifest payload checksum mismatch"@)
    } else {
        None
    }
}

/// The file of an encoded manifest.
pub fn manifest_file(payload: &[u8]) -> (outcome: Result<Vec<u8>, Error>)
    ensures
        match outcome {
            Ok(file) => payload@.len() <= MAX_MANIFEST_BYTES && file@ == manifest_bytes(payload@),
            Err(error) => payload@.len() > MAX_MANIFEST_BYTES && unserializable(
                error,
                "manifest exceeds 64 MiB"@,
            ),
        },
{
    if payload.len() > MAX_MANIFEST_BYTES {
        return Err(Error::Serialization("manifest exceeds 64 MiB".to_owned()));
    }
    let fields: [(u128, usize); 5] = [
        (MANIFEST_MAGIC as u128, 8),
        (MANIFEST_VERSION as u128, 2),
        (0, 2),
        (payload.len() as u128, 4),
        (crc32(payload) as u128, 4),
    ];
    assert(fields@ =~= manifest_fields(payload@));
    let mut out: Vec<u8> = Vec::new();
    put_fields(&mut out, fields.as_slice());
    assert(out@ =~= packed(manifest_fields(payload@)));
    let sum: u32 = crc32(out.as_slice());
    let tail: [(u128, usize); 1] = [(sum as u128, 4)];
    assert(tail@ =~= seq![(sum as u128, 4usize)]);
    put_fields(&mut out, tail.as_slice());
    put_bytes(&mut out, payload);
    assert(out@ =~= manifest_bytes(payload@));
    Ok(out)
}

/// The encoded manifest of a file.
pub fn manifest_payload(file: &[u8]) -> (outcome: Result<&[u8], Error>)
    ensures
        match outcome {
            Ok(payload) => manifest_fault(file@) is None && payload@ == file@.skip(24),
            Err(error) => manifest_fault(file@) matches Some(reason) && corrupt_at(
                error,
                0,
                reason,
            ),
        },
{
    let total: usize = file.len();
    if total < MANIFEST_HEADER_BYTES {
        return Err(corruption(0, "manifest is too small"));
    }
    proof {
        lemma_pow256_values();
    }
    if read_le(file, 0, 8) != MANIFEST_MAGIC as u128 {
        return Err(corruption(0, "invalid manifest magic"));
    }
    if read_le(file, 8, 2) != MANIFEST_VERSION as u128 {
        return Err(corruption(0, "unsupported manifest version"));
    }
    if crc32(&file[0..20]) as u128 != read_le(file, 20, 4) {
        return Err(corruption(0, "manifest header checksum mismatch"));
    }
    let length: u128 = read_le(file, 12, 4);
    if length > MAX_MANIFEST_BYTES as u128 || total as u128 != MANIFEST_HEADER_BYTES as u128
        + length {
        return Err(corruption(0, "invalid manifest length"));
    }
    let payload = &file[24..total];
    assert(payload@ =~= file@.skip(24));
    if crc32(payload) as u128 != read_le(file, 16, 4) {
        return Err(corruption(0, "manifest payload checksum mismatch"));
    }
    Ok(payload)
}

impl Manifest {
    /// The file to publish for this manifest, whose encoding is `payload`.
    pub fn publish(&self, payload: &[u8]) -> (outcome: Result<Vec<u8>, Error>)
        ensures
            match descriptors_fault(self.rollups@) {
                Some(reason) => outcome matches Err(error) && invalid_model(error, reason),
                None => match outcome {
                    Ok(file) => payload@.len() <= MAX_MANIFEST_BYTES && file@ == manifest_bytes(
                        payload@,
                    ),
                    Err(error) => payload@.len() > MAX_MANIFEST_BYTES && unserializable(
                        error,
                        "manifest exceeds 64 MiB"@,
                    ),
                },
            },
    {
        validate_manifest(self)?;
        manifest_file(payload)
    }

    /// Takes a manifest that was decoded from the file of a generation.
    pub fn accept(self, expected_generation: u64) -> (outcome: Result<Self, Error>)
        ensures
            match outcome {
                Ok(manifest) => {
                    &&& manifest == self
                    &&& self.generation == expected_generation
                    &&& descriptors_fault(self.rollups@) is None
                },
                Err(error) => if self.generation != expected_generation {
                    corrupt_at(error, 0, "manifest generation does not match its filename"@)
                } else {
                    descriptors_fault(self.rollups@) matches Some(reason) && invalid_model(
                        error,
                        reason,
                    )
                },
            },
    {
        if self.generation != expected_generation {
            return Err(corruption(0, "manifest generation does not match its filename"));
        }
        validate_manifest(&self)?;
        Ok(self)
    }

    /// The manifest of the first file that read without a fault, where the newest comes
    /// first. Without files the manifest is empty; without a good one the last fault
    /// counts.
    #[verifier::loop_isolation(false)]
    pub fn load(files: Vec<Result<Manifest, Error>>) -> (outcome: Result<Self, Error>)
        ensures
            match first_good(files@) {
                Some(i) => outcome == files@[i],
                None => if files@.len() == 0 {
                    outcome matches Ok(manifest) && manifest.generation == 0
                        && manifest.rollups@.len() == 0
                } else {
                    outcome == files@.last()
                },
            },
    {
        let mut files = files;
        if files.len() == 0 {
            return Ok(Manifest { generation: 0, rollups: Vec::new() });
        }
        let ghost all = files@;
        let total: usize = files.len();
        let mut i: usize = 0;
        while i < total
            invariant
                i <= total,
                total == all.len(),
                files@ == all,
                forall|j: int| 0 <= j < i ==> !((#[trigger] all[j]) is Ok),
            decreases total - i,
        {
            if files[i].is_ok() {
                proof {
                    lemma_first_good(all, i as int);
                }
                return files.remove(i);
            }
            i = i + 1;
        }
        proof {
            lemma_none_good(all);
        }
        files.remove(total - 1)
    }
}

/// The place of the first file that read without a fault.
pub open spec fn first_good(files: Seq<Result<Manifest, Error>>) -> Option<int>
    decreases files.len(),
{
    if files.len() == 0 {
        None
    } else {
        match first_good(files.drop_last()) {
            Some(i) => Some(i),
            None => if files.last() is Ok {
                Some(files.len() - 1)
            } else {
                None
            },
        }
    }
}

pub proof fn lemma_none_good(files: Seq<Result<Manifest, Error>>)
    requires
        forall|j: int| 0 <= j < files.len() ==> !((#[trigger] files[j]) is Ok),
    ensures
        first_good(files) is None,
    decreases files.len(),
{
    if files.len() > 0 {
        assert(!(files[files.len() - 1] is Ok));
        lemma_none_good(files.drop_last());
    }
}

pub proof fn lemma_first_good(files: Seq<Result<Manifest, Error>>, i: int)
    requires
        0 <= i < files.len(),
        files[i] is Ok,
        forall|j: int| 0 <= j < i ==> !((#[trigger] files[j]) is Ok),
    ensures
        first_good(files) == Some(i),
    decreases files.len(),
{
    if i == files.len() - 1 {
        let front = files.drop_last();
        assert forall|j: int| 0 <= j < front.len() implies !((#[trigger] front[j]) is Ok) by {
            assert(!(files[j] is Ok));
        }
        lemma_none_good(front);
    } else {
        let front = files.drop_last();
        assert(front[i] == files[i]);
        assert forall|j: int| 0 <= j < i implies !((#[trigger] front[j]) is Ok) by {
            assert(!(files[j] is Ok));
        }
        lemma_first_good(front, i);
    }
}

// Names.

/// A number in decimal with leading zeros, `width` digits long where it has no more.
pub open spec fn padded(n: nat, width: nat) -> Seq<char> {
    let digits = decimal(n);
    if digits.len() >= width {
        digits
    } else {
        Seq::new((width - digits.len()) as nat, |i: int| '0') + digits
    }
}

/// The name of the file of a generation.
pub open spec fn manifest_name_of(generation: nat) -> Seq<char> {
    "MANIFEST."@ + padded(generation, 20)
}

/// The name of the file of a generation.
pub fn manifest_name(generation: u64) -> (name: String)
    ensures
        name@ == manifest_name_of(generation as nat),
{
    let mut digits = String::new();
    put_decimal(&mut digits, generation as u128);
    assert(digits@ =~= decimal(generation as nat));
    let length: usize = characters(digits.as_str()).len();
    let mut name = "MANIFEST.".to_owned();
    let mut written: usize = length;
    let ghost zeros = Seq::new(
        if length >= 20 {
            0
        } else {
            (20 - length) as nat
        },
        |i: int| '0',
    );
    proof {
        reveal_strlit("0");
        assert(name@ =~= "MANIFEST."@ + zeros.take(0));
    }
    while written < 20
        invariant
            length <= written,
            length <= 20 ==> written <= 20,
            length > 20 ==> written == length,
            zeros == Seq::new(
                if length >= 20 {
                    0
                } else {
                    (20 - length) as nat
                },
                |i: int| '0',
            ),
            name@ == "MANIFEST."@ + zeros.take(written - length),
            "0"@ == seq!['0'],
        decreases 20 - written,
    {
        name.append("0");
        written = written + 1;
        assert(name@ =~= "MANIFEST."@ + zeros.take(written - length));
    }
    name.append(digits.as_str());
    assert(zeros.take(written - length) =~= zeros);
    assert(name@ =~= manifest_name_of(generation as nat));
    name
}

/// The generation that a file name says, where it is the name of a manifest.
pub open spec fn generation_in(name: Seq<char>) -> Option<u64> {
    let prefix = "MANIFEST."@;
    if name.len() < prefix.len() || name.take(prefix.len() as int) != prefix {
        None
    } else {
        match unsigned_value(name.skip(prefix.len() as int)) {
            Ok(n) => Some(n as u64),
            Err(_) => None,
        }
    }
}

/// The generation that a file name says, where it is the name of a manifest.
pub fn manifest_generation(name: &str) -> (generation: Option<u64>)
    ensures
        generation == generation_in(name@),
{
    let letters = characters(name);
    let prefix = characters("MANIFEST.");
    let n: usize = prefix.len();
    if letters.len() < n {
        return None;
    }
    let front = vstd::slice::slice_subrange(letters.as_slice(), 0, n);
    assert(front@ =~= name@.take(n as int));
    if !characters_are(front, "MANIFEST.") {
        return None;
    }
    let rest = vstd::slice::slice_subrange(letters.as_slice(), n, letters.len());
    assert(rest@ =~= name@.skip(n as int));
    match parse_unsigned(rest) {
        Ok(value) => Some(value),
        Err(_) => None,
    }
}

/// Whether one candidate is read before another: the newer generation first, and of one
/// generation the name that was found first.
pub open spec fn read_before(a: (u64, usize), b: (u64, usize)) -> bool {
    a.0 > b.0 || (a.0 == b.0 && a.1 < b.1)
}

/// The manifests among some file names, as generation and place, in the order in which
/// they are read.
pub fn newest_first(names: &Vec<String>) -> (order: Vec<(u64, usize)>)
    ensures
        forall|a: int, b: int|
            #![trigger order@[a], order@[b]]
            0 <= a < b < order@.len() ==> read_before(order@[a], order@[b]),
        forall|g: u64, i: usize| #[trigger]
            order@.contains((g, i)) <==> i < names@.len() && generation_in(names@[i as int]@)
                == Some(g),
{
    let mut order: Vec<(u64, usize)> = Vec::new();
    let mut i: usize = 0;
    while i < names.len()
        invariant
            i <= names@.len(),
            forall|a: int, b: int|
                #![trigger order@[a], order@[b]]
                0 <= a < b < order@.len() ==> read_before(order@[a], order@[b]),
            forall|g: u64, k: usize| #[trigger]
                order@.contains((g, k)) <==> k < i && generation_in(names@[k as int]@) == Some(g),
        decreases names@.len() - i,
    {
        let generation = manifest_generation(names[i].as_str());
        if let Some(g) = generation {
            let ghost before = order@;
            let mut at: usize = 0;
            while at < order.len() && order[at].0 >= g
                invariant
                    at <= order@.len(),
                    order@ == before,
                    forall|a: int| 0 <= a < at ==> (#[trigger] order@[a]).0 >= g,
                decreases order@.len() - at,
            {
                at = at + 1;
            }
            order.insert(at, (g, i));
            proof {
                let added = (g, i);
                assert(order@ == before.insert(at as int, added));
                assert forall|a: int| 0 <= a < before.len() implies (#[trigger] before[a]).1
                    < i by {
                    assert(before.contains((before[a].0, before[a].1)));
                }
                assert forall|a: int, b: int|
                    #![trigger order@[a], order@[b]]
                    0 <= a < b < order@.len() implies read_before(order@[a], order@[b]) by {
                    let x = if a < at {
                        a
                    } else {
                        a - 1
                    };
                    let y = if b < at {
                        b
                    } else {
                        b - 1
                    };
                    if a != at && b != at {
                        assert(read_before(before[x], before[y]));
                    } else if b == at {
                        assert(before[x].0 >= g && before[x].1 < i);
                    } else {
                        if at < y {
                            assert(read_before(before[at as int], before[y]));
                        }
                        assert(before[at as int].0 < g);
                    }
                }
                assert forall|h: u64, k: usize| #[trigger] order@.contains((h, k)) <==> k < i + 1
                    && generation_in(names@[k as int]@) == Some(h) by {
                    if order@.contains((h, k)) {
                        let p = choose|p: int| 0 <= p < order@.len() && order@[p] == (h, k);
                        if p < at {
                            assert(before[p] == (h, k));
                            assert(before.contains((h, k)));
                        } else if p > at {
                            assert(before[p - 1] == (h, k));
                            assert(before.contains((h, k)));
                        }
                    }
                    if k < i + 1 && generation_in(names@[k as int]@) == Some(h) {
                        if k == i {
                            assert(order@[at as int] == (h, k));
                        } else {
                            assert(before.contains((h, k)));
                            let p = choose|p: int| 0 <= p < before.len() && before[p] == (h, k);
                            if p < at {
                                assert(order@[p] == (h, k));
                            } else {
                                assert(order@[p + 1] == (h, k));
                            }
                        }
                    }
                }
            }
        }
        i = i + 1;
    }
    order
}

// Laws.

/// What is read of a manifest file is what was written into it.
pub proof fn manifests_are_read_back(payload: Seq<u8>)
    requires
        payload.len() <= MAX_MANIFEST_BYTES,
    ensures
        manifest_fault(manifest_bytes(payload)) is None,
        manifest_bytes(payload).skip(24) == payload,
{
    let fields = manifest_fields(payload);
    let tail = seq![(crc32_of(packed(fields)) as u128, 4usize)];
    let file = manifest_bytes(payload);
    lemma_pow256_values();
    reveal_with_fuel(offset_of, 6);
    assert(fields_fit(fields)) by {
        assert forall|i: int| 0 <= i < fields.len() implies (#[trigger] fields[i]).0 < pow256(
            fields[i].1 as nat,
        ) by {}
    }
    assert(fields_fit(tail)) by {
        assert forall|i: int| 0 <= i < tail.len() implies (#[trigger] tail[i]).0 < pow256(
            tail[i].1 as nat,
        ) by {}
    }
    crate::fields::lemma_packed_len(fields, 5);
    crate::fields::lemma_packed_len(tail, 1);
    assert(packed(fields).len() == 20);
    assert(packed(tail).len() == 4);
    assert(file.subrange(0, 20) =~= packed(fields));
    assert(file.subrange(20, 24) =~= packed(tail));
    assert(file.skip(24) =~= payload);
    lemma_fields(fields, file, 0);
    lemma_fields(tail, file, 20);
    assert(field(file, 0, 8) == fields[0].0);
    assert(field(file, 8, 2) == fields[1].0);
    assert(field(file, 12, 4) == fields[3].0);
    assert(field(file, 16, 4) == fields[4].0);
    assert(field(file, 20, 4) == tail[0].0);
}

proof fn lemma_zeros_value(zeros: Seq<char>, limit: nat)
    requires
        forall|i: int| 0 <= i < zeros.len() ==> #[trigger] zeros[i] == '0',
    ensures
        digits_value(zeros, limit, IntegerFault::PosOverflow) == Ok::<nat, IntegerFault>(0),
    decreases zeros.len(),
{
    if zeros.len() > 0 {
        assert(zeros[zeros.len() - 1] == '0');
        lemma_zeros_value(zeros.drop_last(), limit);
    }
}

pub proof fn lemma_padded_value(zeros: Seq<char>, n: nat, limit: nat)
    requires
        forall|i: int| 0 <= i < zeros.len() ==> #[trigger] zeros[i] == '0',
        n <= limit,
    ensures
        digits_value(zeros + decimal(n), limit, IntegerFault::PosOverflow) == Ok::<
            nat,
            IntegerFault,
        >(n),
    decreases n,
{
    let all = zeros + decimal(n);
    if n < 10 {
        assert(all.drop_last() =~= zeros);
        lemma_zeros_value(zeros, limit);
    } else {
        lemma_padded_value(zeros, n / 10, limit);
        assert(all.drop_last() =~= zeros + decimal(n / 10));
    }
}

pub proof fn lemma_first_digit(n: nat)
    ensures
        decimal(n).len() >= 1,
        0x30 <= decimal(n)[0] as u32 <= 0x39,
    decreases n,
{
    if n >= 10 {
        lemma_first_digit(n / 10);
    }
}

/// The name that a generation is published under says that generation, so a manifest is
/// found again among the files of its directory.
pub proof fn names_say_their_generation(generation: u64)
    ensures
        generation_in(manifest_name_of(generation as nat)) == Some(generation),
{
    let n = generation as nat;
    let prefix = "MANIFEST."@;
    let name = manifest_name_of(n);
    let digits = padded(n, 20);
    let zeros = Seq::new(
        if decimal(n).len() >= 20 {
            0
        } else {
            (20 - decimal(n).len()) as nat
        },
        |i: int| '0',
    );
    assert(digits =~= zeros + decimal(n));
    assert(name.take(prefix.len() as int) =~= prefix);
    assert(name.skip(prefix.len() as int) =~= digits);
    lemma_padded_value(zeros, n, u64::MAX as nat);
    lemma_first_digit(n);
    assert(digits[0] == if zeros.len() > 0 {
        '0'
    } else {
        decimal(n)[0]
    });
}

} // verus!
