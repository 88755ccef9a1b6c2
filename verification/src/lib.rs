//! A single-file, block-structured store for named files.
//!
//! The image is a sequence of 4096-byte blocks: block 0 holds the superblock, and the
//! rest is divided into block groups, each made of one bitmap block followed by the
//! 32768 data blocks that the bitmap accounts for. Files live in directories, which
//! are found through one directory index; every payload is obfuscated with a keystream
//! made from a secret, and the records carry CRC-32 checksums.
//!
//! The image is held in memory as bytes; reading it from a host file and writing it
//! back is left to the caller.
//!
//! - `layout`, `util`, `codec`: the sizes and addresses of the layout, checksums, the
//!   clock and the keystream, and little-endian fields.
//! - `bitmap`, `group`: the bit-vector of a group and first-fit allocation within it.
//! - `superblock`, `inode`, `names`, `directory`: the records and their serialised
//!   forms.
//! - `store`, `model`: payloads in data blocks, and what an image holds as a function
//!   of its bytes.
//! - `fs`, `volume`, `allocation`, `first_fit`, `payload`: the filesystem and its
//!   operations.
//! - `plan`, `accounting`: what an operation does to the bitmaps and to the number of
//!   free blocks, and when it fails, as functions of the bitmaps before.
//! - `laws`: why the operations keep an image consistent.

pub mod error;
pub mod util;
pub mod layout;
pub mod codec;
pub mod bitmap;
pub mod group;
pub mod superblock;
pub mod inode;
pub mod names;
pub mod directory;
pub mod store;
pub mod model;
pub mod fs;
pub mod volume;
pub mod allocation;
pub mod first_fit;
pub mod payload;
pub mod plan;
pub mod accounting;
pub mod laws;

pub use crate::directory::Directory;
pub use crate::directory::DirectoryIndex;
pub use crate::error::FsError;
pub use crate::fs::FS;
pub use crate::group::Group;
pub use crate::inode::Data;
pub use crate::inode::Inode;
pub use crate::superblock::Superblock;
