//! The failures that the storage engine reports.

use vstd::prelude::*;

verus! {

/// Why an operation on an image did not complete.
#[derive(Debug, Clone, Copy, PartialEq, Eq, Structural)]
pub enum FsError {
    /// The image is shorter than a structure it should hold.
    IoFailure,
    /// The superblock does not decode, or its checksum, magic, version, block size or
    /// counters do not agree with the rest of the image.
    CorruptSuperblock,
    /// An inode, a directory or the directory index does not decode, or its checksum
    /// does not verify.
    ChecksumMismatch,
    /// The directory or the file is already there.
    AlreadyExists,
    /// No such directory or file.
    NotFound,
    /// The image cannot grow any further.
    CapacityExhausted,
    /// The payload would need more regions than one inode can reference.
    FragmentationExhausted,
    /// The arguments contradict each other or exceed what the call accepts.
    InvalidArgument,
}

impl FsError {
    /// A short description of the failure.
    pub fn message(&self) -> (text: String)
        ensures
            text@ == self.spec_message()@,
    {
        match self {
            FsError::IoFailure => "image is too short".to_string(),
            FsError::CorruptSuperblock => "superblock verification failed".to_string(),
            FsError::ChecksumMismatch => "checksum verification failed".to_string(),
            FsError::AlreadyExists => "already exists".to_string(),
            FsError::NotFound => "not found".to_string(),
            FsError::CapacityExhausted => "image cannot grow any further".to_string(),
            FsError::FragmentationExhausted => "too many regions needed".to_string(),
            FsError::InvalidArgument => "invalid argument".to_string(),
        }
    }

    /// The text of `message`, by error kind.
    pub open spec fn spec_message(&self) -> &'static str {
        match self {
            FsError::IoFailure => "image is too short",
            FsError::CorruptSuperblock => "superblock verification failed",
            FsError::ChecksumMismatch => "checksum verification failed",
            FsError::AlreadyExists => "already exists",
            FsError::NotFound => "not found",
            FsError::CapacityExhausted => "image cannot grow any further",
            FsError::FragmentationExhausted => "too many regions needed",
            FsError::InvalidArgument => "invalid argument",
        }
    }
}

} // verus!
