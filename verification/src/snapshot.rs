//! Snapshots: a checksum over selected files, and publication that can be undone.
use crate::bytes::put_le;
#[allow(unused_imports)]
use crate::bytes::{le, lemma_le_len, lemma_le_round_trip, lemma_pow256_values};
use crate::checksum::{crc32, crc32_continue};
#[allow(unused_imports)]
use crate::checksum::{continues, crc32_of};
use crate::error::Error;
#[allow(unused_imports)]
use crate::error::{error_text, unserializable};
use crate::safe_path::is_safe_relative;
#[allow(unused_imports)]
use crate::safe_path::safe_relative;
use crate::text::{is_text_less, put_decimal};
#[allow(unused_imports)]
use crate::text::{decimal, lemma_utf8_injective, text_less};
use vstd::prelude::*;
use vstd::string::*;
use vstd::utf8::*;

verus! {

/// The text that a snapshot checksum starts with, and the zero byte behind it.
pub open spec fn snapshot_domain() -> Seq<u8> {
    encode_utf8("FTWDB snapshot CRC32 v1"@) + seq![0u8]
}

/// What a snapshot holds, in three numbers.
#[derive(Clone, Copy, Debug, PartialEq, Eq, Structural)]
pub struct SnapshotDigest {
    pub files: usize,
    pub bytes: u64,
    pub crc32: u32,
}

/// What stands before the bytes of a file: the length of its path, the path, and the
/// length of the file.
pub open spec fn file_head(path: Seq<char>, length: nat) -> Seq<u8> {
    le(encode_utf8(path).len(), 8) + encode_utf8(path) + le(length, 8)
}

/// What a file contributes to the checksum.
pub open spec fn file_input(path: Seq<char>, contents: Seq<u8>) -> Seq<u8> {
    file_head(path, contents.len()) + contents
}

/// What is checksummed for some files.
pub open spec fn snapshot_input(files: Seq<(Seq<char>, Seq<u8>)>) -> Seq<u8>
    decreases files.len(),
{
    if files.len() == 0 {
        snapshot_domain()
    } else {
        snapshot_input(files.drop_last()) + file_input(files.last().0, files.last().1)
    }
}

/// How many bytes some files hold.
pub open spec fn snapshot_size(files: Seq<(Seq<char>, Seq<u8>)>) -> nat
    decreases files.len(),
{
    if files.len() == 0 {
        0
    } else {
        snapshot_size(files.drop_last()) + files.last().1.len()
    }
}

/// What is wrong with a path that comes behind others.
pub open spec fn path_fault(previous: Option<Seq<char>>, path: Seq<char>) -> Option<&'static str> {
    if !safe_relative(path) {
        Some("snapshot path must be a safe relative path")
    } else if previous matches Some(before) && !text_less(before, path) {
        Some("snapshot paths must be unique and sorted")
    } else {
        None
    }
}

/// A snapshot checksum in the making.
///
/// Paths must be unique, safe, relative and sorted by their UTF-8 bytes. Directory
/// entries, times, permissions and unselected files are left out. Of each file in turn
/// the path is selected, its length is said, and its bytes are handed in.
pub struct SnapshotHasher {
    /// What was hashed so far.
    hashed: Ghost<Seq<u8>>,
    count: usize,
    bytes: u64,
    crc32: u32,
    path: Option<String>,
    remaining: u64,
}

impl SnapshotHasher {
    /// What was hashed so far.
    pub closed spec fn input(&self) -> Seq<u8> {
        self.hashed@
    }

    pub closed spec fn file_count(&self) -> usize {
        self.count
    }

    /// How many bytes the files have that were started.
    pub closed spec fn total(&self) -> u64 {
        self.bytes
    }

    /// The path that was selected last.
    pub closed spec fn selected(&self) -> Option<Seq<char>> {
        match self.path {
            None => None,
            Some(path) => Some(path@),
        }
    }

    /// How many bytes of the last file are still to come.
    pub closed spec fn missing(&self) -> u64 {
        self.remaining
    }

    /// Whether the checksum is that of what was hashed.
    pub closed spec fn ok(&self) -> bool {
        self.crc32 == crc32_of(self.hashed@)
    }

    /// A checksum of no files.
    pub fn new() -> (hasher: Self)
        ensures
            hasher.ok(),
            hasher.input() == snapshot_domain(),
            hasher.file_count() == 0,
            hasher.total() == 0,
            hasher.selected() is None,
            hasher.missing() == 0,
    {
        let mut domain: Vec<u8> = Vec::new();
        crate::bytes::put_bytes(&mut domain, "FTWDB snapshot CRC32 v1".as_bytes());
        domain.push(0);
        assert(domain@ =~= snapshot_domain());
        SnapshotHasher {
            hashed: Ghost(snapshot_domain()),
            count: 0,
            bytes: 0,
            crc32: crc32(domain.as_slice()),
            path: None,
            remaining: 0,
        }
    }

    /// Selects the next file.
    pub fn select(&mut self, relative: &str) -> (outcome: Result<(), Error>)
        requires
            old(self).ok(),
            old(self).missing() == 0,
        ensures
            final(self).ok(),
            final(self).input() == old(self).input(),
            final(self).file_count() == old(self).file_count(),
            final(self).total() == old(self).total(),
            final(self).missing() == 0,
            match path_fault(old(self).selected(), relative@) {
                Some(reason) => outcome == Err::<(), _>(Error::InvalidArgument(reason))
                    && final(self).selected() == old(self).selected(),
                None => outcome is Ok && final(self).selected() == Some(relative@),
            },
    {
        if !is_safe_relative(relative) {
            return Err(Error::InvalidArgument("snapshot path must be a safe relative path"));
        }
        let sorted = match &self.path {
            None => true,
            Some(previous) => is_text_less(previous.as_str(), relative),
        };
        if !sorted {
            return Err(Error::InvalidArgument("snapshot paths must be unique and sorted"));
        }
        self.path = Some(relative.to_owned());
        Ok(())
    }

    /// Hashes some more bytes.
    fn update(&mut self, data: &[u8])
        requires
            old(self).ok(),
        ensures
            final(self).ok(),
            final(self).input() == old(self).input() + data@,
            final(self).file_count() == old(self).file_count(),
            final(self).total() == old(self).total(),
            final(self).selected() == old(self).selected(),
            final(self).missing() == old(self).missing(),
    {
        let sum: u32 = crc32_continue(self.crc32, data);
        proof {
            assert(continues(self.crc32, data@, sum));
            assert(crc32_of(self.hashed@ + data@) == sum);
        }
        self.crc32 = sum;
        self.hashed = Ghost(self.hashed@ + data@);
    }

    /// Starts the selected file, which has `length` bytes.
    pub fn start(&mut self, length: u64) -> (outcome: Result<(), Error>)
        requires
            old(self).ok(),
            old(self).selected() is Some,
            old(self).file_count() < usize::MAX,
        ensures
            final(self).ok(),
            final(self).selected() == old(self).selected(),
            if old(self).total() + length > u64::MAX {
                &&& outcome matches Err(error) && unserializable(
                    error,
                    "snapshot byte count exceeds u64"@,
                )
                &&& *final(self) == *old(self)
            } else {
                &&& outcome is Ok
                &&& final(self).input() == old(self).input() + file_head(
                    old(self).selected()->Some_0,
                    length as nat,
                )
                &&& final(self).file_count() == old(self).file_count() + 1
                &&& final(self).total() == old(self).total() + length
                &&& final(self).missing() == length
            },
    {
        let total: u64 = match self.bytes.checked_add(length) {
            Some(total) => total,
            None => {
                return Err(Error::Serialization("snapshot byte count exceeds u64".to_owned()));
            },
        };
        let mut head: Vec<u8> = Vec::new();
        if let Some(path) = &self.path {
            let bytes = path.as_str().as_bytes();
            put_le(&mut head, bytes.len() as u128, 8);
            crate::bytes::put_bytes(&mut head, bytes);
            put_le(&mut head, length as u128, 8);
            assert(head@ =~= file_head(path@, length as nat));
        }
        self.update(head.as_slice());
        self.count = self.count + 1;
        self.bytes = total;
        self.remaining = length;
        Ok(())
    }

    /// Takes the bytes of one read of the file. A read without bytes before the end means
    /// that the file changed.
    pub fn take(&mut self, data: &[u8]) -> (outcome: Result<(), Error>)
        requires
            old(self).ok(),
            old(self).selected() is Some,
            data@.len() <= old(self).missing(),
        ensures
            final(self).ok(),
            final(self).selected() == old(self).selected(),
            final(self).file_count() == old(self).file_count(),
            final(self).total() == old(self).total(),
            final(self).input() == old(self).input() + data@,
            final(self).missing() == old(self).missing() - data@.len(),
            if data@.len() == 0 && old(self).missing() > 0 {
                outcome matches Err(error) && says_of(
                    error,
                    "snapshot file changed while reading "@,
                    old(self).selected()->Some_0,
                )
            } else {
                outcome is Ok
            },
    {
        self.update(data);
        if data.len() == 0 && self.remaining > 0 {
            return Err(self.complaint("snapshot file changed while reading "));
        }
        self.remaining = self.remaining - data.len() as u64;
        Ok(())
    }

    /// Ends a file whose bytes have all come. One that has more grew meanwhile.
    pub fn end(&self, more: bool) -> (outcome: Result<(), Error>)
        requires
            self.selected() is Some,
        ensures
            if more {
                outcome matches Err(error) && says_of(
                    error,
                    "snapshot file grew while reading "@,
                    self.selected()->Some_0,
                )
            } else {
                outcome is Ok
            },
    {
        if more {
            return Err(self.complaint("snapshot file grew while reading "));
        }
        Ok(())
    }

    fn complaint(&self, what: &str) -> (error: Error)
        requires
            self.selected() is Some,
        ensures
            says_of(error, what@, self.selected()->Some_0),
    {
        let mut text = what.to_owned();
        if let Some(path) = &self.path {
            text.append(path.as_str());
        }
        Error::Io(text)
    }

    /// The digest of all files.
    pub fn finish(&self) -> (digest: SnapshotDigest)
        requires
            self.ok(),
            self.missing() == 0,
        ensures
            digest == (SnapshotDigest {
                files: self.file_count(),
                bytes: self.total(),
                crc32: crc32_of(self.input()),
            }),
    {
        SnapshotDigest { files: self.count, bytes: self.bytes, crc32: self.crc32 }
    }
}

/// Whether an input error says something of a path.
pub open spec fn says_of(error: Error, what: Seq<char>, path: Seq<char>) -> bool {
    error matches Error::Io(text) && text@ == what + path
}

/// A selected file and its bytes.
#[derive(Debug, PartialEq, Eq)]
pub struct SnapshotFile {
    pub path: String,
    pub contents: Vec<u8>,
}

/// The paths and bytes of some files.
pub open spec fn file_models(files: Seq<SnapshotFile>) -> Seq<(Seq<char>, Seq<u8>)> {
    Seq::new(files.len(), |i: int| (files[i].path@, files[i].contents@))
}

/// What can be wrong with a file that comes behind others.
pub enum SnapshotFault {
    /// Its path is unsafe, or out of order.
    Path(&'static str),
    /// With it the files hold more bytes than can be counted.
    TooLarge,
}

/// What is wrong with the first of some files with which anything is.
pub open spec fn files_fault(files: Seq<(Seq<char>, Seq<u8>)>) -> Option<SnapshotFault>
    decreases files.len(),
{
    if files.len() == 0 {
        None
    } else {
        let previous = if files.len() == 1 {
            None
        } else {
            Some(files[files.len() - 2].0)
        };
        match (files_fault(files.drop_last()), path_fault(previous, files.last().0)) {
            (Some(fault), _) => Some(fault),
            (None, Some(reason)) => Some(SnapshotFault::Path(reason)),
            (None, None) => if snapshot_size(files) > u64::MAX {
                Some(SnapshotFault::TooLarge)
            } else {
                None
            },
        }
    }
}

/// The digest of files that are at hand as a whole.
pub fn snapshot_digest(files: &Vec<SnapshotFile>) -> (outcome: Result<SnapshotDigest, Error>)
    ensures
        match files_fault(file_models(files@)) {
            Some(SnapshotFault::Path(reason)) => outcome == Err::<SnapshotDigest, _>(
                Error::InvalidArgument(reason),
            ),
            Some(SnapshotFault::TooLarge) => outcome matches Err(error) && unserializable(
                error,
                "snapshot byte count exceeds u64"@,
            ),
            None => outcome == Ok::<_, Error>(
                SnapshotDigest {
                    files: files@.len() as usize,
                    bytes: snapshot_size(file_models(files@)) as u64,
                    crc32: crc32_of(snapshot_input(file_models(files@))),
                },
            ),
        },
{
    let ghost all = file_models(files@);
    let total: usize = files.len();
    let mut hasher = SnapshotHasher::new();
    let mut i: usize = 0;
    while i < total
        invariant
            i <= total,
            total == files@.len(),
            all == file_models(files@),
            hasher.ok(),
            hasher.missing() == 0,
            files_fault(all.take(i as int)) is None,
            hasher.input() == snapshot_input(all.take(i as int)),
            hasher.total() == snapshot_size(all.take(i as int)),
            hasher.file_count() == i,
            hasher.selected() == if i == 0 {
                None::<Seq<char>>
            } else {
                Some(all[i - 1].0)
            },
        decreases total - i,
    {
        let file = &files[i];
        proof {
            assert(all.take(i + 1).drop_last() =~= all.take(i as int));
            assert(all.take(i + 1).last() == (file.path@, file.contents@));
            if i > 0 {
                assert(all.take(i + 1)[i - 1].0 == all[i - 1].0);
            }
        }
        if let Err(error) = hasher.select(file.path.as_str()) {
            proof {
                lemma_fault_stays(all, i + 1);
            }
            return Err(error);
        }
        let ghost before = hasher.input();
        if let Err(error) = hasher.start(file.contents.len() as u64) {
            proof {
                lemma_fault_stays(all, i + 1);
            }
            return Err(error);
        }
        let _ = hasher.take(file.contents.as_slice());
        proof {
            assert(hasher.input() =~= before + file_input(file.path@, file.contents@));
        }
        i = i + 1;
    }
    assert(all.take(total as int) =~= all);
    Ok(hasher.finish())
}

proof fn lemma_fault_stays(files: Seq<(Seq<char>, Seq<u8>)>, n: int)
    requires
        0 <= n <= files.len(),
        files_fault(files.take(n)) is Some,
    ensures
        files_fault(files) == files_fault(files.take(n)),
    decreases files.len(),
{
    if n == files.len() {
        assert(files.take(n) =~= files);
    } else {
        assert(files.drop_last().take(n) =~= files.take(n));
        lemma_fault_stays(files.drop_last(), n);
    }
}

/// What some files contribute to the checksum, one behind the other.
spec fn files_input(files: Seq<(Seq<char>, Seq<u8>)>) -> Seq<u8>
    decreases files.len(),
{
    if files.len() == 0 {
        Seq::empty()
    } else {
        file_input(files[0].0, files[0].1) + files_input(files.skip(1))
    }
}

proof fn lemma_files_input_push(files: Seq<(Seq<char>, Seq<u8>)>, file: (Seq<char>, Seq<u8>))
    ensures
        files_input(files.push(file)) == files_input(files) + file_input(file.0, file.1),
    decreases files.len(),
{
    let longer = files.push(file);
    if files.len() == 0 {
        assert(longer.skip(1) =~= Seq::<(Seq<char>, Seq<u8>)>::empty());
        assert(files_input(longer.skip(1)) == Seq::<u8>::empty());
        assert(files_input(longer) =~= files_input(files) + file_input(file.0, file.1));
    } else {
        assert(longer.skip(1) =~= files.skip(1).push(file));
        lemma_files_input_push(files.skip(1), file);
        assert(files_input(longer) =~= files_input(files) + file_input(file.0, file.1));
    }
}

proof fn lemma_input_is_domain_and_files(files: Seq<(Seq<char>, Seq<u8>)>)
    ensures
        snapshot_input(files) == snapshot_domain() + files_input(files),
    decreases files.len(),
{
    if files.len() == 0 {
        assert(snapshot_domain() + Seq::<u8>::empty() =~= snapshot_domain());
    } else {
        lemma_input_is_domain_and_files(files.drop_last());
        lemma_files_input_push(files.drop_last(), files.last());
        assert(files.drop_last().push(files.last()) =~= files);
        assert(snapshot_input(files) =~= snapshot_domain() + files_input(files));
    }
}

/// Whether the lengths of a file and its path can be written down.
pub open spec fn lengths_fit(file: (Seq<char>, Seq<u8>)) -> bool {
    encode_utf8(file.0).len() <= u64::MAX && file.1.len() <= u64::MAX
}

proof fn lemma_first_file(
    a: (Seq<char>, Seq<u8>),
    rest_a: Seq<u8>,
    b: (Seq<char>, Seq<u8>),
    rest_b: Seq<u8>,
)
    requires
        lengths_fit(a),
        lengths_fit(b),
        file_input(a.0, a.1) + rest_a == file_input(b.0, b.1) + rest_b,
    ensures
        a == b,
        rest_a == rest_b,
{
    lemma_pow256_values();
    let x = file_input(a.0, a.1) + rest_a;
    let y = file_input(b.0, b.1) + rest_b;
    let pa = encode_utf8(a.0);
    let pb = encode_utf8(b.0);
    lemma_le_round_trip(pa.len(), 8);
    lemma_le_round_trip(pb.len(), 8);
    lemma_le_round_trip(a.1.len(), 8);
    lemma_le_round_trip(b.1.len(), 8);
    assert(x.take(8) =~= le(pa.len(), 8));
    assert(y.take(8) =~= le(pb.len(), 8));
    let p = pa.len() as int;
    assert(pa.len() == pb.len());
    assert(x.subrange(8, 8 + p) =~= pa);
    assert(y.subrange(8, 8 + p) =~= pb);
    lemma_utf8_injective(a.0, b.0);
    assert(x.subrange(8 + p, 16 + p) =~= le(a.1.len(), 8));
    assert(y.subrange(8 + p, 16 + p) =~= le(b.1.len(), 8));
    let n = a.1.len() as int;
    assert(a.1.len() == b.1.len());
    assert(x.subrange(16 + p, 16 + p + n) =~= a.1);
    assert(y.subrange(16 + p, 16 + p + n) =~= b.1);
    assert(x.skip(16 + p + n) =~= rest_a);
    assert(y.skip(16 + p + n) =~= rest_b);
}

proof fn lemma_files_input_injective(
    a: Seq<(Seq<char>, Seq<u8>)>,
    b: Seq<(Seq<char>, Seq<u8>)>,
)
    requires
        forall|i: int| 0 <= i < a.len() ==> lengths_fit(#[trigger] a[i]),
        forall|i: int| 0 <= i < b.len() ==> lengths_fit(#[trigger] b[i]),
        files_input(a) == files_input(b),
    ensures
        a == b,
    decreases a.len(),
{
    if a.len() == 0 || b.len() == 0 {
        if a.len() > 0 {
            lemma_le_len(encode_utf8(a[0].0).len(), 8);
            assert(files_input(a).len() >= 8);
        }
        if b.len() > 0 {
            lemma_le_len(encode_utf8(b[0].0).len(), 8);
            assert(files_input(b).len() >= 8);
        }
        assert(a =~= b);
    } else {
        lemma_first_file(a[0], files_input(a.skip(1)), b[0], files_input(b.skip(1)));
        assert forall|i: int| 0 <= i < a.skip(1).len() implies lengths_fit(
            #[trigger] a.skip(1)[i],
        ) by {
            assert(a.skip(1)[i] == a[i + 1]);
        }
        assert forall|i: int| 0 <= i < b.skip(1).len() implies lengths_fit(
            #[trigger] b.skip(1)[i],
        ) by {
            assert(b.skip(1)[i] == b[i + 1]);
        }
        lemma_files_input_injective(a.skip(1), b.skip(1));
        assert(a =~= seq![a[0]] + a.skip(1));
        assert(b =~= seq![b[0]] + b.skip(1));
    }
}

/// What is checksummed tells one selection of files from every other: it changes with a
/// path, with a length and with any byte.
pub proof fn snapshots_are_told_apart(
    a: Seq<(Seq<char>, Seq<u8>)>,
    b: Seq<(Seq<char>, Seq<u8>)>,
)
    requires
        forall|i: int| 0 <= i < a.len() ==> lengths_fit(#[trigger] a[i]),
        forall|i: int| 0 <= i < b.len() ==> lengths_fit(#[trigger] b[i]),
        snapshot_input(a) == snapshot_input(b),
    ensures
        a == b,
{
    lemma_input_is_domain_and_files(a);
    lemma_input_is_domain_and_files(b);
    let d = snapshot_domain().len() as int;
    assert(snapshot_input(a).skip(d) =~= files_input(a));
    assert(snapshot_input(b).skip(d) =~= files_input(b));
    lemma_files_input_injective(a, b);
}

/// Whether a path is among some others.
pub fn check_prefix_selected(paths: &Vec<String>, prefix: &str) -> (outcome: Result<(), Error>)
    ensures
        if exists|i: int| 0 <= i < paths@.len() && (#[trigger] paths@[i])@ == prefix@ {
            outcome is Ok
        } else {
            outcome == Err::<(), _>(
                Error::InvalidArgument("snapshot prefix path must be one of the selected files"),
            )
        },
{
    let mut i: usize = 0;
    while i < paths.len()
        invariant
            i <= paths@.len(),
            forall|j: int| 0 <= j < i ==> (#[trigger] paths@[j])@ != prefix@,
        decreases paths@.len() - i,
    {
        if crate::text::same_text(paths[i].as_str(), prefix) {
            assert(paths@[i as int]@ == prefix@);
            return Ok(());
        }
        i = i + 1;
    }
    Err(Error::InvalidArgument("snapshot prefix path must be one of the selected files"))
}

// Publication.

/// Which directory a name led to.
#[derive(Clone, Copy, Debug, PartialEq, Eq, Structural)]
pub struct FileIdentity {
    pub device: u64,
    pub inode: u64,
}

/// A directory that was renamed to its destination and can still be taken back.
#[derive(Clone, Copy, Debug, PartialEq, Eq, Structural)]
pub struct PublishedDirectory {
    pub identity: FileIdentity,
    pub at_destination: bool,
    pub committed: bool,
}

impl PublishedDirectory {
    /// A directory that has just been renamed.
    pub fn new(identity: FileIdentity) -> (publication: Self)
        ensures
            publication == (PublishedDirectory {
                identity,
                at_destination: true,
                committed: false,
            }),
    {
        PublishedDirectory { identity, at_destination: true, committed: false }
    }

    /// Whether the directory is to be taken back. It is not when it is no longer there;
    /// one that another process put there is never touched.
    pub fn may_roll_back(&self, found: &FileIdentity) -> (outcome: Result<bool, Error>)
        ensures
            if !self.at_destination {
                outcome == Ok::<bool, Error>(false)
            } else if found.device == self.identity.device && found.inode == self.identity.inode {
                outcome == Ok::<bool, Error>(true)
            } else {
                outcome matches Err(Error::Io(text)) && text@
                    == "published destination identity changed before rollback"@
            },
    {
        if !self.at_destination {
            return Ok(false);
        }
        if found.device != self.identity.device || found.inode != self.identity.inode {
            return Err(
                Error::Io("published destination identity changed before rollback".to_owned()),
            );
        }
        Ok(true)
    }
}

/// What is reported where an operation failed after publication: the failure itself,
/// or, where the directory could not be taken back, that it may remain.
pub fn rollback_after(failure: Error, rollback: Result<(), Error>, destination: String) -> (error:
    Error)
    ensures
        match rollback {
            Ok(()) => error == failure,
            Err(second) => error matches Error::SnapshotPublication { path, reason } && path
                == destination && reason@ == "operation failed: "@ + error_text(failure)
                + "; rollback failed: "@ + error_text(second),
        },
{
    match rollback {
        Ok(()) => failure,
        Err(second) => {
            let mut reason = "operation failed: ".to_owned();
            reason.append(failure.message().as_str());
            reason.append("; rollback failed: ");
            reason.append(second.message().as_str());
            Error::SnapshotPublication { path: destination, reason }
        },
    }
}

/// The name of a hidden directory in which a snapshot is staged.
pub fn stage_name(
    name: &str,
    operation: &str,
    process: u32,
    timestamp: u128,
    counter: u64,
    attempt: u64,
) -> (stage: String)
    ensures
        stage@ == "."@ + name@ + "."@ + operation@ + "-"@ + decimal(process as nat) + "-"@
            + decimal(timestamp as nat) + "-"@ + decimal(counter as nat) + "-"@ + decimal(
            attempt as nat,
        ),
{
    let mut stage = ".".to_owned();
    stage.append(name);
    stage.append(".");
    stage.append(operation);
    stage.append("-");
    put_decimal(&mut stage, process as u128);
    stage.append("-");
    put_decimal(&mut stage, timestamp);
    stage.append("-");
    put_decimal(&mut stage, counter as u128);
    stage.append("-");
    put_decimal(&mut stage, attempt as u128);
    stage
}

} // verus!
