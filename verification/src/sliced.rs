//! The settings and the records of the job queue that is kept in chunks.

use vstd::prelude::*;

verus! {

/// The size of a chunk where none is set: eight mebibytes.
pub const DEFAULT_CHUNK_SIZE: u64 = 8388608;

/// The number of chunks in one file where none is set.
pub const DEFAULT_CHUNKS_PER_FILE: u64 = 8;

/// The settings of a queue.
#[derive(Clone, Copy, Debug)]
pub struct Config {
    /// The size of a chunk.
    pub chunk_size: u64,
    /// The number of chunks in one file.
    pub chunks_per_file: u64,
    /// The size of the buffer that is read at once.
    pub page_size: u32,
    /// How much memory the head of the queue may take.
    pub head_memory_limit: u64,
    pub node_max_bytes: u32,
    pub node_max_entries: u16,
}

/// A job that is on its way.
#[derive(Debug)]
pub struct Job {
    nack: usize,
    dup_len: u8,
}

impl Job {
    /// A job that was not refused yet, with a key of `dup_len` bytes to
    /// tell it from its copies.
    pub fn new(dup_len: u8) -> (job: Job)
        ensures
            job.nack() == 0,
            job.dup_len() == dup_len,
    {
        Job { nack: 0, dup_len }
    }

    /// How often the job was refused.
    pub closed spec fn nack(self) -> usize {
        self.nack
    }

    /// The length of the key that tells the job from its copies.
    pub closed spec fn dup_len(self) -> u8 {
        self.dup_len
    }
}

/// What a chunk is doing.
#[derive(Clone, Copy, Debug)]
pub enum ChunkState {
    Idle,
    Loading,
    Error,
}

/// Work that the queue has put off.
#[derive(Debug)]
pub enum Task {
    /// Load the chunk in the file of this name.
    Load(String),
}

/// A group of consumers.
#[derive(Debug)]
pub struct ConsumerGroup {}

/// A consumer.
#[derive(Debug)]
pub struct Consumer {}

} // verus!
