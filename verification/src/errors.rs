use vstd::prelude::*;

verus! {

/// Failures of the archive reader and writer.
///
/// `CorruptIndex` and `KeyMismatch` arise when opening an archive;
/// `EntryNotFound`, `DecryptionFailed` and `DecompressionFailed` arise when
/// retrieving a single entry; `DuplicatePath` and `WriterFinalized` are
/// usage errors of the writer.
#[derive(Clone, Copy, Debug, PartialEq, Eq, Structural)]
pub enum ArchiveError {
    CorruptIndex,
    KeyMismatch,
    EntryNotFound,
    DecryptionFailed,
    DecompressionFailed,
    DuplicatePath,
    WriterFinalized,
}

/// Failures when decoding the cipher key from its hexadecimal form.
#[derive(Clone, Copy, Debug, PartialEq, Eq, Structural)]
pub enum KeyError {
    WrongLength,
    BadDigit,
}

/// Failures of the path classifier.
#[derive(Clone, Copy, Debug, PartialEq, Eq, Structural)]
pub enum ClassifyError {
    EmptyName,
}

} // verus!
