use vstd::prelude::*;

verus! {

/// What is wrong with a classification report or with a request against it.
#[derive(Debug, Clone, Copy, PartialEq, Eq, Structural)]
pub enum TaxonomyFault {
    /// The requested taxon at this position of the request is no entry of the
    /// report.
    MissingTaxon { index: usize },
    /// The report line at this position (counted from zero) cannot be read.
    MalformedLine { line: usize },
}

/// What is wrong with a list of taxa to exclude.
#[derive(Debug, Clone, Copy, PartialEq, Eq, Structural)]
pub enum PatternFault {
    /// The list names no taxon.
    NoTaxon,
    /// The taxon at this position of the list has an empty id.
    EmptyTaxon { index: usize },
    /// The automaton could not be built from the patterns.
    Build,
}

/// The setting that a configuration error is about.
#[derive(Debug, Clone, Copy, PartialEq, Eq, Structural)]
pub enum ConfigField {
    CompressionLevel,
    ClassificationBatch,
    ReadBatch,
    ChunkBytes,
    QueueDepth,
    Threads,
}

/// What is wrong with a classification row.
#[derive(Debug, Clone, Copy, PartialEq, Eq, Structural)]
pub enum RowFault {
    /// The row does not have exactly five tab-separated fields.
    FieldCount,
    /// The first field is neither `C` nor `U`.
    Flag,
    /// The fourth field is no sequence length.
    Length,
}

/// What failed while bytes were read, written or compressed.
#[derive(Debug, Clone, Copy, PartialEq, Eq, Structural)]
pub enum IoFault {
    /// A file could not be opened or read.
    Read,
    /// The output could not be written.
    Write,
    /// The codec could not compress a buffer.
    Compress,
    /// Compressed or sequence input is corrupt.
    Corrupt,
    /// The content of compressed input takes more room than was granted.
    Room,
    /// Bytes follow the first member of compressed input.
    Trailing,
}

/// The single failure that a run reports.
#[derive(Debug, Clone, Copy, PartialEq, Eq, Structural)]
pub enum PipelineError {
    /// The report is malformed or lacks a requested taxon.
    TaxonomyParse(TaxonomyFault),
    /// The exclusion list cannot be compiled.
    PatternCompile(PatternFault),
    /// A setting is out of range.
    InvalidConfig(ConfigField),
    /// The row at position `row` of its batch (counted from zero) is malformed.
    RecordParse { row: usize, fault: RowFault },
    /// The two mate streams hold different numbers of records.
    PairingMismatch { mate1: usize, mate2: usize },
    /// Reading, writing or compressing failed.
    Io(IoFault),
}

} // verus!
