//! What storage says of commits, of ordered ingress and of its sync policy.
use vstd::prelude::*;

verus! {

/// When a commit is made durable.
#[derive(Clone, Copy, Debug, PartialEq, Eq, Structural)]
pub enum Durability {
    Always,
    Manual,
    EveryBytes(u64),
}

/// One producer, its cursor and the commit that it names there.
#[derive(Clone, Copy, Debug, PartialEq, Eq, Structural)]
pub struct IngressIdentity {
    pub source_id: u128,
    pub sequence: u64,
    pub commit_id: u128,
}

impl IngressIdentity {
    pub fn new(source_id: u128, sequence: u64, commit_id: u128) -> (identity: Self)
        ensures
            identity == (IngressIdentity { source_id, sequence, commit_id }),
    {
        IngressIdentity { source_id, sequence, commit_id }
    }
}

/// The highest cursors of a source that were accepted and made durable.
#[derive(Clone, Copy, Debug, PartialEq, Eq)]
pub struct IngressWatermarks {
    pub accepted_through: Option<u64>,
    pub durable_through: Option<u64>,
}

impl Default for IngressWatermarks {
    fn default() -> (watermarks: Self)
        ensures
            watermarks == (IngressWatermarks { accepted_through: None, durable_through: None }),
    {
        IngressWatermarks { accepted_through: None, durable_through: None }
    }
}

/// What a commit wrote.
#[derive(Clone, Copy, Debug, PartialEq, Eq, Structural)]
pub struct Commit {
    pub frame_offset: u64,
    pub points: usize,
    pub records: usize,
    pub bytes_written: u64,
    pub durable: bool,
    pub deduplicated: bool,
}

} // verus!
