//! The layout that a file system must have to be mounted.
use vstd::prelude::*;

use crate::bytes::{get_u16, get_u32, le16, le32};

use super::allocator::{PROFILE_INODES, SUPERBLOCK_BASE};
use super::inode::INODE_BYTES;
use super::on_disk::{
    BLOCK_BYTES, GROUP_DESCRIPTOR_BLOCK_BITMAP, GROUP_DESCRIPTOR_INODE_BITMAP,
    GROUP_DESCRIPTOR_INODE_TABLE, SUPERBLOCK_BLOCKS_COUNT, SUPERBLOCK_BLOCKS_PER_GROUP,
    SUPERBLOCK_FEATURE_COMPAT, SUPERBLOCK_FEATURE_INCOMPAT, SUPERBLOCK_FEATURE_RO_COMPAT,
    SUPERBLOCK_FIRST_DATA_BLOCK, SUPERBLOCK_FRAGMENTS_PER_GROUP, SUPERBLOCK_INODES_COUNT,
    SUPERBLOCK_INODES_PER_GROUP, SUPERBLOCK_INODE_SIZE, SUPERBLOCK_LOG_BLOCK_SIZE,
    SUPERBLOCK_LOG_FRAGMENT_SIZE, SUPERBLOCK_MAGIC, SUPERBLOCK_REVISION_LEVEL,
};
use super::{Ext2Error, PROFILE_BLOCKS};

verus! {

/// Blocks that the inode table takes.
pub const INODE_TABLE_BLOCKS: u32 = 256;

/// What marks a superblock.
pub const MAGIC: u16 = 0xef53;

/// The only incompatible feature there must be: directory records hold the file type.
pub const FEATURE_FILETYPE: u32 = 2;

/// Where the bitmaps and the inode table are.
#[derive(Clone, Copy, Debug, PartialEq, Eq, Structural)]
pub struct Geometry {
    pub block_bitmap: u32,
    pub inode_bitmap: u32,
    pub inode_table: u32,
    pub inode_table_blocks: u32,
}

impl Geometry {
    /// Whether a block holds the superblock, the group descriptor, a bitmap or inodes.
    pub open spec fn structural(self, block: u32) -> bool {
        ||| block <= 1
        ||| block == self.block_bitmap
        ||| block == self.inode_bitmap
        ||| self.inode_table <= block < self.inode_table + self.inode_table_blocks
    }

    /// The parts lie inside the file system and do not overlap.
    pub open spec fn wf(self) -> bool {
        &&& 2 <= self.block_bitmap < PROFILE_BLOCKS
        &&& 2 <= self.inode_bitmap < PROFILE_BLOCKS
        &&& 2 <= self.inode_table
        &&& self.inode_table_blocks == INODE_TABLE_BLOCKS
        &&& self.inode_table + self.inode_table_blocks <= PROFILE_BLOCKS
        &&& self.block_bitmap != self.inode_bitmap
        &&& !(self.inode_table <= self.block_bitmap < self.inode_table + self.inode_table_blocks)
        &&& !(self.inode_table <= self.inode_bitmap < self.inode_table + self.inode_table_blocks)
    }

    /// Whether a block holds the superblock, the group descriptor, a bitmap or inodes.
    pub fn is_structural_metadata_block(&self, block: u32) -> (r: bool)
        ensures
            r == self.structural(block),
    {
        block == 0 || block == 1 || block == self.block_bitmap || block == self.inode_bitmap || (
        block >= self.inode_table && block - self.inode_table < self.inode_table_blocks)
    }
}

/// A 32-bit field of the superblock.
pub open spec fn super32(superblock: Seq<u8>, field: usize) -> u32 {
    le32(superblock, SUPERBLOCK_BASE + field)
}

/// The first field of the superblock that has another value than the layout asks for, with what
/// it means.
pub open spec fn superblock_fault(superblock: Seq<u8>) -> Option<Ext2Error> {
    let incompat = super32(superblock, SUPERBLOCK_FEATURE_INCOMPAT);
    if le16(superblock, SUPERBLOCK_BASE + SUPERBLOCK_MAGIC) != MAGIC {
        Some(Ext2Error::UnsupportedProfile { field: "magic" })
    } else if super32(superblock, SUPERBLOCK_REVISION_LEVEL) != 1 {
        Some(Ext2Error::UnsupportedProfile { field: "revision_level" })
    } else if super32(superblock, SUPERBLOCK_FEATURE_COMPAT) != 0 {
        Some(
            Ext2Error::UnsupportedFeature {
                field: "feature_compat",
                bits: super32(superblock, SUPERBLOCK_FEATURE_COMPAT),
            },
        )
    } else if incompat & !FEATURE_FILETYPE != 0 {
        Some(
            Ext2Error::UnsupportedFeature {
                field: "feature_incompat",
                bits: incompat & !FEATURE_FILETYPE,
            },
        )
    } else if super32(superblock, SUPERBLOCK_FEATURE_RO_COMPAT) != 0 {
        Some(
            Ext2Error::UnsupportedFeature {
                field: "feature_ro_compat",
                bits: super32(superblock, SUPERBLOCK_FEATURE_RO_COMPAT),
            },
        )
    } else if incompat != FEATURE_FILETYPE {
        Some(Ext2Error::UnsupportedProfile { field: "feature_incompat" })
    } else if super32(superblock, SUPERBLOCK_LOG_BLOCK_SIZE) != 2 {
        Some(Ext2Error::UnsupportedProfile { field: "log_block_size" })
    } else if super32(superblock, SUPERBLOCK_LOG_FRAGMENT_SIZE) != 2 {
        Some(Ext2Error::UnsupportedProfile { field: "log_fragment_size" })
    } else if super32(superblock, SUPERBLOCK_BLOCKS_COUNT) != PROFILE_BLOCKS {
        Some(Ext2Error::UnsupportedProfile { field: "blocks_count" })
    } else if super32(superblock, SUPERBLOCK_INODES_COUNT) != PROFILE_INODES {
        Some(Ext2Error::UnsupportedProfile { field: "inodes_count" })
    } else if super32(superblock, SUPERBLOCK_FIRST_DATA_BLOCK) != 0 {
        Some(Ext2Error::UnsupportedProfile { field: "first_data_block" })
    } else if super32(superblock, SUPERBLOCK_BLOCKS_PER_GROUP) != PROFILE_BLOCKS {
        Some(Ext2Error::UnsupportedProfile { field: "blocks_per_group" })
    } else if super32(superblock, SUPERBLOCK_FRAGMENTS_PER_GROUP) != PROFILE_BLOCKS {
        Some(Ext2Error::UnsupportedProfile { field: "fragments_per_group" })
    } else if super32(superblock, SUPERBLOCK_INODES_PER_GROUP) != PROFILE_INODES {
        Some(Ext2Error::UnsupportedProfile { field: "inodes_per_group" })
    } else if le16(superblock, SUPERBLOCK_BASE + SUPERBLOCK_INODE_SIZE) != INODE_BYTES {
        Some(Ext2Error::UnsupportedProfile { field: "inode_size" })
    } else {
        None
    }
}

/// The geometry that a group descriptor gives.
pub open spec fn described(group: Seq<u8>) -> Geometry {
    Geometry {
        block_bitmap: le32(group, GROUP_DESCRIPTOR_BLOCK_BITMAP as int),
        inode_bitmap: le32(group, GROUP_DESCRIPTOR_INODE_BITMAP as int),
        inode_table: le32(group, GROUP_DESCRIPTOR_INODE_TABLE as int),
        inode_table_blocks: INODE_TABLE_BLOCKS,
    }
}

/// The geometry of a file system with this superblock and group descriptor, or why it cannot be
/// mounted.
pub open spec fn profile(superblock: Seq<u8>, group: Seq<u8>) -> Result<Geometry, Ext2Error> {
    let geometry = described(group);
    match superblock_fault(superblock) {
        Some(error) => Err(error),
        None => if geometry.block_bitmap < 2 || geometry.block_bitmap >= PROFILE_BLOCKS {
            Err(Ext2Error::CorruptMetadata { field: "block_bitmap" })
        } else if geometry.inode_bitmap < 2 || geometry.inode_bitmap >= PROFILE_BLOCKS
            || geometry.inode_bitmap == geometry.block_bitmap {
            Err(Ext2Error::CorruptMetadata { field: "inode_bitmap" })
        } else if !geometry.wf() {
            Err(Ext2Error::CorruptMetadata { field: "inode_table" })
        } else {
            Ok(geometry)
        },
    }
}

/// Tests the superblock.
fn check_superblock(superblock: &[u8; BLOCK_BYTES]) -> (r: Result<(), Ext2Error>)
    ensures
        r == (match superblock_fault(superblock@) {
            Some(error) => Err(error),
            None => Ok(()),
        }),
{
    let base: usize = SUPERBLOCK_BASE;
    if get_u16(superblock, base + SUPERBLOCK_MAGIC) != MAGIC {
        return Err(Ext2Error::UnsupportedProfile { field: "magic" });
    }
    if get_u32(superblock, base + SUPERBLOCK_REVISION_LEVEL) != 1 {
        return Err(Ext2Error::UnsupportedProfile { field: "revision_level" });
    }
    let compat: u32 = get_u32(superblock, base + SUPERBLOCK_FEATURE_COMPAT);
    if compat != 0 {
        return Err(Ext2Error::UnsupportedFeature { field: "feature_compat", bits: compat });
    }
    let incompat: u32 = get_u32(superblock, base + SUPERBLOCK_FEATURE_INCOMPAT);
    if incompat & !FEATURE_FILETYPE != 0 {
        return Err(
            Ext2Error::UnsupportedFeature {
                field: "feature_incompat",
                bits: incompat & !FEATURE_FILETYPE,
            },
        );
    }
    let ro_compat: u32 = get_u32(superblock, base + SUPERBLOCK_FEATURE_RO_COMPAT);
    if ro_compat != 0 {
        return Err(Ext2Error::UnsupportedFeature { field: "feature_ro_compat", bits: ro_compat });
    }
    if incompat != FEATURE_FILETYPE {
        return Err(Ext2Error::UnsupportedProfile { field: "feature_incompat" });
    }
    if get_u32(superblock, base + SUPERBLOCK_LOG_BLOCK_SIZE) != 2 {
        return Err(Ext2Error::UnsupportedProfile { field: "log_block_size" });
    }
    if get_u32(superblock, base + SUPERBLOCK_LOG_FRAGMENT_SIZE) != 2 {
        return Err(Ext2Error::UnsupportedProfile { field: "log_fragment_size" });
    }
    if get_u32(superblock, base + SUPERBLOCK_BLOCKS_COUNT) != PROFILE_BLOCKS {
        return Err(Ext2Error::UnsupportedProfile { field: "blocks_count" });
    }
    if get_u32(superblock, base + SUPERBLOCK_INODES_COUNT) != PROFILE_INODES {
        return Err(Ext2Error::UnsupportedProfile { field: "inodes_count" });
    }
    if get_u32(superblock, base + SUPERBLOCK_FIRST_DATA_BLOCK) != 0 {
        return Err(Ext2Error::UnsupportedProfile { field: "first_data_block" });
    }
    if get_u32(superblock, base + SUPERBLOCK_BLOCKS_PER_GROUP) != PROFILE_BLOCKS {
        return Err(Ext2Error::UnsupportedProfile { field: "blocks_per_group" });
    }
    if get_u32(superblock, base + SUPERBLOCK_FRAGMENTS_PER_GROUP) != PROFILE_BLOCKS {
        return Err(Ext2Error::UnsupportedProfile { field: "fragments_per_group" });
    }
    if get_u32(superblock, base + SUPERBLOCK_INODES_PER_GROUP) != PROFILE_INODES {
        return Err(Ext2Error::UnsupportedProfile { field: "inodes_per_group" });
    }
    if get_u16(superblock, base + SUPERBLOCK_INODE_SIZE) as usize != INODE_BYTES {
        return Err(Ext2Error::UnsupportedProfile { field: "inode_size" });
    }
    Ok(())
}

/// The geometry of a file system with this superblock and group descriptor, or why it cannot be
/// mounted.
pub(crate) fn check_profile(
    superblock: &[u8; BLOCK_BYTES],
    group: &[u8; BLOCK_BYTES],
) -> (r: Result<
    Geometry,
    Ext2Error,
>)
    ensures
        r == profile(superblock@, group@),
        r is Ok ==> r->Ok_0.wf(),
{
    check_superblock(superblock)?;
    let block_bitmap: u32 = get_u32(group, GROUP_DESCRIPTOR_BLOCK_BITMAP);
    let inode_bitmap: u32 = get_u32(group, GROUP_DESCRIPTOR_INODE_BITMAP);
    let inode_table: u32 = get_u32(group, GROUP_DESCRIPTOR_INODE_TABLE);
    if block_bitmap < 2 || block_bitmap >= PROFILE_BLOCKS {
        return Err(Ext2Error::CorruptMetadata { field: "block_bitmap" });
    }
    if inode_bitmap < 2 || inode_bitmap >= PROFILE_BLOCKS || inode_bitmap == block_bitmap {
        return Err(Ext2Error::CorruptMetadata { field: "inode_bitmap" });
    }
    if inode_table < 2 || inode_table > PROFILE_BLOCKS - INODE_TABLE_BLOCKS {
        return Err(Ext2Error::CorruptMetadata { field: "inode_table" });
    }
    let end: u32 = inode_table + INODE_TABLE_BLOCKS;
    if (inode_table <= block_bitmap && block_bitmap < end) || (inode_table <= inode_bitmap
        && inode_bitmap < end) {
        return Err(Ext2Error::CorruptMetadata { field: "inode_table" });
    }
    Ok(Geometry { block_bitmap, inode_bitmap, inode_table, inode_table_blocks: INODE_TABLE_BLOCKS })
}

} // verus!
