use crate::codec::is_legal_level;
use crate::codec::legal_level;
use crate::error::ConfigField;
use crate::error::PipelineError;
use vstd::prelude::*;

verus! {

/// The settings of a run.
#[derive(Debug, Clone, Copy, PartialEq, Eq, Structural)]
pub struct Config {
    /// Rows of classification output per unit of work.
    pub classification_batch: usize,
    /// Sequence records per unit of work.
    pub read_batch: usize,
    /// Bytes read from a sequence file at a time.
    pub chunk_bytes: usize,
    /// The level at which the output is compressed.
    pub compression_level: i32,
    /// How many units of work may wait for a worker; no bound where absent.
    pub queue_depth: Option<usize>,
    /// The number of worker threads.
    pub threads: usize,
}

/// The first setting that is out of range, the compression level before
/// all others; nothing where every setting is in range.
pub open spec fn first_fault(c: Config) -> Option<ConfigField> {
    if !legal_level(c.compression_level as int) {
        Some(ConfigField::CompressionLevel)
    } else if c.classification_batch == 0 {
        Some(ConfigField::ClassificationBatch)
    } else if c.read_batch == 0 {
        Some(ConfigField::ReadBatch)
    } else if c.chunk_bytes == 0 {
        Some(ConfigField::ChunkBytes)
    } else if c.queue_depth == Some(0usize) {
        Some(ConfigField::QueueDepth)
    } else if c.threads == 0 {
        Some(ConfigField::Threads)
    } else {
        None
    }
}

impl Config {
    /// Every setting is in range.
    pub open spec fn valid(self) -> bool {
        first_fault(self) is None
    }

    /// Checks every setting; the first that is out of range is reported.
    pub fn validate(&self) -> (checked: Result<(), PipelineError>)
        ensures
            match checked {
                Ok(_) => self.valid(),
                Err(e) => first_fault(*self) matches Some(field) && e
                    == PipelineError::InvalidConfig(field),
            },
    {
        if !is_legal_level(self.compression_level) {
            return Err(PipelineError::InvalidConfig(ConfigField::CompressionLevel));
        }
        if self.classification_batch == 0 {
            return Err(PipelineError::InvalidConfig(ConfigField::ClassificationBatch));
        }
        if self.read_batch == 0 {
            return Err(PipelineError::InvalidConfig(ConfigField::ReadBatch));
        }
        if self.chunk_bytes == 0 {
            return Err(PipelineError::InvalidConfig(ConfigField::ChunkBytes));
        }
        match self.queue_depth {
            Some(depth) => {
                if depth == 0 {
                    return Err(PipelineError::InvalidConfig(ConfigField::QueueDepth));
                }
            },
            None => {},
        }
        if self.threads == 0 {
            return Err(PipelineError::InvalidConfig(ConfigField::Threads));
        }
        Ok(())
    }
}

} // verus!
