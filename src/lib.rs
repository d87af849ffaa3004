//! A small block-based file system: a super block, two allocation bitmaps,
//! an inode table and a data area laid out on a device of 512-byte blocks.
//! Files map logical blocks to physical ones through direct, single-indirect
//! and double-indirect indices; directories are dense arrays of 32-byte
//! entries.

use vstd::prelude::*;

pub mod bitmap;
pub mod block_cache;
pub mod block_dev;
pub mod bytes;
pub mod disk_inode;
pub mod efs;
pub mod layout;
pub mod vfs;

pub use bitmap::Bitmap;
pub use block_cache::{BlockCache, BlockCacheManager};
pub use block_dev::{BlockDevice, MemoryDevice};
pub use disk_inode::{DiskInode, DiskInodeType};
pub use efs::FileSystem;
pub use layout::{DirEntry, SuperBlock};
pub use vfs::Inode;


verus! {

/// Size of one block, in bytes.
pub const BLOCK_SIZE: usize = 512;

/// How many blocks the cache keeps in memory at once.
pub const BLOCK_CACHE_SIZE: usize = 16;

/// Magic number of a formatted image.
pub const EASY_FS_MAGIC: u32 = 0x3b800001;

/// Number of direct block slots in an inode.
pub const INODE_DIRECT_COUNT: usize = 28;

/// Longest name a directory entry holds, in bytes.
pub const NAME_LENGTH_LIMIT: usize = 27;

/// Number of block ids in one index block.
pub const INODE_INDIRECT1_COUNT: usize = 128;

/// Number of data blocks reachable through the double-indirect index.
pub const INODE_INDIRECT2_COUNT: usize = 16384;

/// First logical block that is not direct.
pub const DIRECT_BOUND: usize = 28;

/// First logical block that is reached through the double-indirect index.
pub const INDIRECT1_BOUND: usize = 156;

/// Number of logical blocks a file can have.
pub const INDIRECT2_BOUND: usize = 16540;

/// Number of bits in one bitmap block.
pub const BLOCK_BITS: usize = 4096;

/// Size of one directory entry, in bytes.
pub const DIRENT_SIZE: usize = 32;

/// Size of one on-disk inode, in bytes.
pub const DISK_INODE_SIZE: usize = 128;

/// Largest size, in bytes, that a file or directory can reach.
pub const MAX_FILE_SIZE: usize = 8468480;

} // verus!
