//! Where the fields of the on-disk records are.
use vstd::prelude::*;

use crate::bytes::{get_u16, get_u32, get_u64, le16, le32, le64};

use super::Ext2Error;

verus! {

pub const SUPERBLOCK_BYTES: usize = 1024;

pub const BLOCK_BYTES: usize = 4096;

pub const GROUP_DESCRIPTOR_BYTES: usize = 32;

pub const SUPERBLOCK_INODES_COUNT: usize = 0;

pub const SUPERBLOCK_BLOCKS_COUNT: usize = 4;

pub const SUPERBLOCK_FREE_BLOCKS: usize = 12;

pub const SUPERBLOCK_FREE_INODES: usize = 16;

pub const SUPERBLOCK_FIRST_DATA_BLOCK: usize = 20;

pub const SUPERBLOCK_LOG_BLOCK_SIZE: usize = 24;

pub const SUPERBLOCK_LOG_FRAGMENT_SIZE: usize = 28;

pub const SUPERBLOCK_BLOCKS_PER_GROUP: usize = 32;

pub const SUPERBLOCK_FRAGMENTS_PER_GROUP: usize = 36;

pub const SUPERBLOCK_INODES_PER_GROUP: usize = 40;

pub const SUPERBLOCK_MAGIC: usize = 56;

pub const SUPERBLOCK_STATE: usize = 58;

pub const SUPERBLOCK_ERRORS: usize = 60;

pub const SUPERBLOCK_REVISION_LEVEL: usize = 76;

pub const SUPERBLOCK_INODE_SIZE: usize = 88;

pub const SUPERBLOCK_FEATURE_COMPAT: usize = 92;

pub const SUPERBLOCK_FEATURE_INCOMPAT: usize = 96;

pub const SUPERBLOCK_FEATURE_RO_COMPAT: usize = 100;

pub const GROUP_DESCRIPTOR_BLOCK_BITMAP: usize = 0;

pub const GROUP_DESCRIPTOR_INODE_BITMAP: usize = 4;

pub const GROUP_DESCRIPTOR_INODE_TABLE: usize = 8;

pub const GROUP_DESCRIPTOR_FREE_BLOCKS: usize = 12;

pub const GROUP_DESCRIPTOR_FREE_INODES: usize = 14;

pub const GROUP_DESCRIPTOR_USED_DIRS: usize = 16;

pub const INODE_MODE: usize = 0;

pub const INODE_UID: usize = 2;

pub const INODE_SIZE_LO: usize = 4;

pub const INODE_ATIME: usize = 8;

pub const INODE_CTIME: usize = 12;

pub const INODE_MTIME: usize = 16;

pub const INODE_DTIME: usize = 20;

pub const INODE_GID: usize = 24;

pub const INODE_LINKS: usize = 26;

pub const INODE_BLOCKS: usize = 28;

pub const INODE_FLAGS: usize = 32;

pub const INODE_BLOCK: usize = 40;

pub const INODE_SIZE_HIGH: usize = 108;

pub const DIRECTORY_INODE: usize = 0;

pub const DIRECTORY_RECORD_LENGTH: usize = 4;

pub const DIRECTORY_NAME_LENGTH: usize = 6;

pub const DIRECTORY_FILE_TYPE: usize = 7;

pub const DIRECTORY_NAME: usize = 8;

/// The 16-bit field at `offset`; `field` names it in the error when the bytes end before it.
pub fn u16(bytes: &[u8], offset: usize, field: &'static str) -> (r: Result<u16, Ext2Error>)
    ensures
        r == (if offset + 2 <= bytes@.len() {
            Ok(le16(bytes@, offset as int))
        } else {
            Err(Ext2Error::CorruptMetadata { field })
        }),
{
    if bytes.len() < 2 || offset > bytes.len() - 2 {
        return Err(Ext2Error::CorruptMetadata { field });
    }
    Ok(get_u16(bytes, offset))
}

/// The 32-bit field at `offset`; `field` names it in the error when the bytes end before it.
pub fn u32(bytes: &[u8], offset: usize, field: &'static str) -> (r: Result<u32, Ext2Error>)
    ensures
        r == (if offset + 4 <= bytes@.len() {
            Ok(le32(bytes@, offset as int))
        } else {
            Err(Ext2Error::CorruptMetadata { field })
        }),
{
    if bytes.len() < 4 || offset > bytes.len() - 4 {
        return Err(Ext2Error::CorruptMetadata { field });
    }
    Ok(get_u32(bytes, offset))
}

/// The 64-bit field at `offset`; `field` names it in the error when the bytes end before it.
pub fn u64(bytes: &[u8], offset: usize, field: &'static str) -> (r: Result<u64, Ext2Error>)
    ensures
        r == (if offset + 8 <= bytes@.len() {
            Ok(le64(bytes@, offset as int))
        } else {
            Err(Ext2Error::CorruptMetadata { field })
        }),
{
    if bytes.len() < 8 || offset > bytes.len() - 8 {
        return Err(Ext2Error::CorruptMetadata { field });
    }
    Ok(get_u64(bytes, offset))
}

} // verus!
