//! A file system in the second extended format, with one block group of fixed size.
use vstd::prelude::*;

use crate::block::{BlockDevice, BlockError, Disk};
use crate::bytes::{get_u16, le16, put_u16, splice, to_le16};
use crate::fs::{DirEntry, Metadata, Name, NodeId};
use crate::heap::Heap;

use allocator::{SUPERBLOCK_BASE, SUPERBLOCK_BLOCK};
use directory::{listed, lookup_step, only_read};
use inode::{metadata_step, read_at_step};
use mutation::{
    create_dir_step, create_file_step, removed_dir, truncate_step, unlink_file_step, write_at_step,
};

use on_disk::{BLOCK_BYTES, SUPERBLOCK_STATE};
use validate::{check_profile, profile, Geometry, INODE_TABLE_BLOCKS};
use volume::{Step, Volume};

pub mod allocator;
pub mod clearing;
pub mod consistency;
pub mod contents;
pub mod creation;
pub mod cut;
pub mod cut_creation;
pub mod cut_removal;
pub mod cut_truncation;
pub mod cut_write;
pub mod directory;
pub mod entries;
pub mod format;
pub mod inode;
pub mod laws;
pub mod making;
pub mod mutation;
pub mod on_disk;
pub mod records;
pub mod refusal;
pub mod removal;
pub mod resizing;
pub mod space;
pub mod tree;
pub mod validate;
pub mod volume;

verus! {

/// Blocks in the file system.
pub const PROFILE_BLOCKS: u32 = 32_768;

/// Sectors in a block.
pub const SECTORS_PER_BLOCK: u64 = 8;

/// Bytes in a sector.
pub const SECTOR_BYTES: u32 = 512;

/// Sectors in the file system.
pub const PROFILE_SECTORS: u64 = 262_144;

/// The node of the root directory.
pub const ROOT_NODE: u32 = 2;

/// The state of a file system that was unmounted in order.
pub const STATE_CLEAN: u16 = 1;

/// The state of a file system that is being changed.
pub const STATE_DIRTY: u16 = 0;

#[derive(Clone, Copy, Debug, PartialEq, Eq, Structural)]
pub enum MountMode {
    ReadOnly,
    ReadWrite,
}

/// What a mounted file system still takes.
#[derive(Clone, Copy, Debug, PartialEq, Eq, Structural)]
pub enum MountHealth {
    ReadOnly,
    Writable,
    /// A write or a flush failed: the file system can only be read.
    WriteFailed,
    Unmounted,
}

#[derive(Clone, Copy, Debug, PartialEq, Eq)]
pub enum Ext2Error {
    Block(BlockError),
    UnsupportedSector { sector_size: u32 },
    UnsupportedProfile { field: &'static str },
    UnsupportedFeature { field: &'static str, bits: u32 },
    MountRequiresCleanFilesystem,
    CorruptMetadata { field: &'static str },
    InvalidNode,
    WrongNodeKind,
    NotFound,
    AlreadyExists,
    DirectoryNotEmpty,
    NoSpace,
    FileTooLarge,
    ReadOnly,
    WriteDisabled,
    UnsupportedFile,
    SparseFile,
    Allocation,
}

/// A mounted file system.
pub struct Ext2<D: BlockDevice> {
    device: D,
    geometry: Geometry,
    health: MountHealth,
    heap: Heap,
}

/// The model of a file system on a device.
pub open spec fn volume_on(disk: Disk, geometry: Geometry, health: MountHealth) -> Volume {
    Volume {
        blocks: Seq::new(
            PROFILE_BLOCKS as nat,
            |b: int| disk.bytes.subrange(b * BLOCK_BYTES, b * BLOCK_BYTES + BLOCK_BYTES),
        ),
        log: disk.log,
        clock: disk.clock,
        answers: disk.answers,
        health,
        geometry,
    }
}

/// What stands for the geometry until the group descriptor has been read.
pub open spec fn unread_geometry() -> Geometry {
    Geometry {
        block_bitmap: 2,
        inode_bitmap: 3,
        inode_table: 4,
        inode_table_blocks: INODE_TABLE_BLOCKS,
    }
}

/// A block that holds the superblock, with the state replaced.
pub open spec fn with_state(superblock: Seq<u8>, state: u16) -> Seq<u8> {
    splice(superblock, SUPERBLOCK_BASE + SUPERBLOCK_STATE, to_le16(state))
}

/// Mounts the file system on a device: what is left is its model. A file system to be changed
/// must be clean, and is marked as being changed.
pub open spec fn mount_step(disk: Disk, mode: MountMode) -> Result<Volume, Ext2Error> {
    if disk.shape.logical_sector_size != SECTOR_BYTES {
        Err(Ext2Error::UnsupportedSector { sector_size: disk.shape.logical_sector_size })
    } else if disk.shape.sector_count < PROFILE_SECTORS {
        Err(Ext2Error::UnsupportedProfile { field: "sector_count" })
    } else {
        let v = volume_on(disk, unread_geometry(), MountHealth::ReadOnly);
        v.read(SUPERBLOCK_BLOCK).and_then(
            |superblock: Seq<u8>, v: Volume|
                v.read(1).and_then(
                    |group: Seq<u8>, v: Volume|
                        match profile(superblock, group) {
                            Err(e) => v.fail(e),
                            Ok(geometry) => open_step(Volume { geometry, ..v }, superblock, mode),
                        },
                ),
        ).result
    }
}

/// Opens a file system whose layout was read.
pub open spec fn open_step(v: Volume, superblock: Seq<u8>, mode: MountMode) -> Step<Volume> {
    match mode {
        MountMode::ReadOnly => v.done(v),
        MountMode::ReadWrite => if le16(superblock, SUPERBLOCK_BASE + SUPERBLOCK_STATE)
            != STATE_CLEAN {
            v.fail(Ext2Error::MountRequiresCleanFilesystem)
        } else {
            (Volume { health: MountHealth::Writable, ..v }).write_through(
                SUPERBLOCK_BLOCK,
                with_state(superblock, STATE_DIRTY),
            ).and_then(|u: (), v: Volume| v.done(v))
        },
    }
}

/// Makes all changes durable.
pub open spec fn sync_step(v: Volume) -> Step<()> {
    match v.writable() {
        Err(e) => v.fail(e),
        Ok(()) => v.flush(),
    }
}

/// Marks the file system as clean, and ends its use.
pub open spec fn unmount_step(v: Volume) -> Step<()> {
    match v.writable() {
        Err(e) => v.fail(e),
        Ok(()) => v.read_for_update(SUPERBLOCK_BLOCK).and_then(
            |superblock: Seq<u8>, v: Volume|
                v.write_through(SUPERBLOCK_BLOCK, with_state(superblock, STATE_CLEAN)).and_then(
                    |u: (), v: Volume| (Volume { health: MountHealth::Unmounted, ..v }).done(()),
                ),
        ),
    }
}

/// A step of a file system that must not be unmounted.
pub open spec fn if_mounted<T>(v: Volume, step: Step<T>) -> Step<T> {
    match v.readable() {
        Err(e) => v.fail(e),
        Ok(()) => step,
    }
}

impl<D: BlockDevice> Ext2<D> {
    /// The model of the file system.
    pub closed spec fn volume(&self) -> Volume {
        volume_on(self.device.disk(), self.geometry, self.health)
    }

    /// Memory was refused in the last listing or removal of a directory.
    pub closed spec fn refused(&self) -> bool {
        self.heap.refused()
    }

    /// The device has the right shape, and the geometry fits it.
    spec fn shaped(&self) -> bool {
        &&& self.device.disk().shape.logical_sector_size == SECTOR_BYTES
        &&& self.device.disk().bytes.len() >= PROFILE_BLOCKS * BLOCK_BYTES
        &&& self.geometry.wf()
    }

    /// The file system is one that `mount` made.
    pub closed spec fn wf(&self) -> bool {
        self.shaped()
    }

    /// The model of a mounted file system is well formed.
    pub broadcast proof fn lemma_wf(&self)
        requires
            self.wf(),
        ensures
            #[trigger] self.volume().wf(),
    {
    }

    /// Mounts the file system on a device.
    pub fn mount(device: D, mode: MountMode) -> (r: Result<Self, Ext2Error>)
        ensures
            match mount_step(device.disk(), mode) {
                Ok(v) => r is Ok && r->Ok_0.wf() && r->Ok_0.volume() == v,
                Err(e) => r is Err && r->Err_0 == e,
            },
    {
        let shape = device.geometry();
        if shape.logical_sector_size != SECTOR_BYTES {
            return Err(
                Ext2Error::UnsupportedSector { sector_size: shape.logical_sector_size },
            );
        }
        if shape.sector_count < PROFILE_SECTORS {
            return Err(Ext2Error::UnsupportedProfile { field: "sector_count" });
        }
        assert(shape.logical_sector_size * shape.sector_count == 512 * shape.sector_count)
            by (nonlinear_arith)
            requires
                shape.logical_sector_size == 512,
        ;
        let geometry = Geometry {
            block_bitmap: 2,
            inode_bitmap: 3,
            inode_table: 4,
            inode_table_blocks: INODE_TABLE_BLOCKS,
        };
        let mut fs = Ext2 {
            device,
            geometry,
            health: MountHealth::ReadOnly,
            heap: Heap::new(),
        };
        let mut superblock = [0u8; BLOCK_BYTES];
        fs.read_block(SUPERBLOCK_BLOCK, &mut superblock)?;
        let mut group = [0u8; BLOCK_BYTES];
        fs.read_block(1, &mut group)?;
        fs.geometry = check_profile(&superblock, &group)?;
        match mode {
            MountMode::ReadOnly => {},
            MountMode::ReadWrite => {
                if get_u16(&superblock, SUPERBLOCK_BASE + SUPERBLOCK_STATE) != STATE_CLEAN {
                    return Err(Ext2Error::MountRequiresCleanFilesystem);
                }
                fs.health = MountHealth::Writable;
                put_u16(&mut superblock, SUPERBLOCK_BASE + SUPERBLOCK_STATE, STATE_DIRTY);
                fs.write_through(SUPERBLOCK_BLOCK, &superblock)?;
            },
        }
        Ok(fs)
    }

    /// The node of the root directory.
    pub fn root(&self) -> (node: NodeId)
        ensures
            node == NodeId(ROOT_NODE),
    {
        NodeId(ROOT_NODE)
    }

    /// What the file system still takes.
    pub fn health(&self) -> (health: MountHealth)
        ensures
            health == self.volume().health,
    {
        self.health
    }

    /// The kind, length and permissions of a node.
    pub fn metadata(&mut self, node: NodeId) -> (r: Result<Metadata, Ext2Error>)
        requires
            old(self).wf(),
        ensures
            final(self).wf(),
            (Step { result: r, volume: final(self).volume() }) == if_mounted(
                old(self).volume(),
                metadata_step(old(self).volume(), node),
            ),
    {
        self.require_mounted()?;
        let inode = inode::load(self, node)?;
        inode.metadata()
    }

    /// The node that a name stands for in a directory.
    pub fn lookup(&mut self, dir: NodeId, name: &Name) -> (r: Result<NodeId, Ext2Error>)
        requires
            old(self).wf(),
        ensures
            final(self).wf(),
            (Step { result: r, volume: final(self).volume() }) == if_mounted(
                old(self).volume(),
                lookup_step(old(self).volume(), dir, name@),
            ),
    {
        self.require_mounted()?;
        directory::lookup(self, dir, name)
    }

    /// The entries of a directory, but for those of itself and its parent.
    pub fn read_dir(&mut self, dir: NodeId) -> (r: Result<Vec<DirEntry>, Ext2Error>)
        requires
            old(self).wf(),
        ensures
            final(self).wf(),
            only_read(old(self).volume(), final(self).volume()),
            match old(self).volume().readable() {
                Err(e) => r == Err::<Vec<DirEntry>, Ext2Error>(e) && !final(self).refused()
                    && final(self).volume() == old(self).volume(),
                Ok(()) => listed(
                    old(self).volume(),
                    dir,
                    final(self).refused(),
                    r,
                    final(self).volume(),
                ),
            },
    {
        self.heap = Heap::new();
        self.require_mounted()?;
        let mut heap = Heap::new();
        let r = directory::read_dir(self, dir, &mut heap);
        self.heap = heap;
        r
    }

    /// Reads a file's bytes from `offset` on: as many as the file has and `dst` takes. Gives
    /// their number.
    pub fn read_at(&mut self, node: NodeId, offset: u64, dst: &mut [u8]) -> (r: Result<
        usize,
        Ext2Error,
    >)
        requires
            old(self).wf(),
        ensures
            final(self).wf(),
            (Step { result: r, volume: final(self).volume() }) == if_mounted(
                old(self).volume(),
                read_at_step(old(self).volume(), node, offset, old(dst)@).0,
            ),
            final(dst)@.len() == old(dst)@.len(),
            final(dst)@ == (if old(self).volume().readable() is Ok {
                read_at_step(old(self).volume(), node, offset, old(dst)@).1
            } else {
                old(dst)@
            }),
    {
        self.require_mounted()?;
        inode::read_at(self, node, offset, dst)
    }

    /// Creates an empty file.
    pub fn create_file(&mut self, parent: NodeId, name: &Name) -> (r: Result<NodeId, Ext2Error>)
        requires
            old(self).wf(),
        ensures
            final(self).wf(),
            (Step { result: r, volume: final(self).volume() }) == create_file_step(
                old(self).volume(),
                parent,
                name@,
            ),
    {
        mutation::create_file(self, parent, name)
    }

    /// Creates an empty directory.
    pub fn create_dir(&mut self, parent: NodeId, name: &Name) -> (r: Result<NodeId, Ext2Error>)
        requires
            old(self).wf(),
        ensures
            final(self).wf(),
            (Step { result: r, volume: final(self).volume() }) == create_dir_step(
                old(self).volume(),
                parent,
                name@,
            ),
    {
        mutation::create_dir(self, parent, name)
    }

    /// Writes `src` at `offset` of a file, which grows where the bytes end behind it.
    pub fn write_at(&mut self, node: NodeId, offset: u64, src: &[u8]) -> (r: Result<(), Ext2Error>)
        requires
            old(self).wf(),
        ensures
            final(self).wf(),
            (Step { result: r, volume: final(self).volume() }) == write_at_step(
                old(self).volume(),
                node,
                offset,
                src@,
            ),
    {
        mutation::write_at(self, node, offset, src)
    }

    /// Sets the length of a file.
    pub fn truncate(&mut self, node: NodeId, len: u64) -> (r: Result<(), Ext2Error>)
        requires
            old(self).wf(),
        ensures
            final(self).wf(),
            (Step { result: r, volume: final(self).volume() }) == truncate_step(
                old(self).volume(),
                node,
                len,
            ),
    {
        mutation::truncate(self, node, len)
    }

    /// Removes a file.
    pub fn unlink_file(&mut self, parent: NodeId, name: &Name) -> (r: Result<(), Ext2Error>)
        requires
            old(self).wf(),
        ensures
            final(self).wf(),
            (Step { result: r, volume: final(self).volume() }) == unlink_file_step(
                old(self).volume(),
                parent,
                name@,
            ),
    {
        mutation::unlink_file(self, parent, name)
    }

    /// Removes an empty directory. Its entries are listed to see that there are none; where there
    /// are some, that may fail for want of memory.
    pub fn remove_dir(&mut self, parent: NodeId, name: &Name) -> (r: Result<(), Ext2Error>)
        requires
            old(self).wf(),
        ensures
            final(self).wf(),
            removed_dir(
                old(self).volume(),
                parent,
                name@,
                final(self).refused(),
                r,
                final(self).volume(),
            ),
    {
        let mut heap = Heap::new();
        let r = mutation::remove_dir(self, parent, name, &mut heap);
        self.heap = heap;
        r
    }

    /// Makes all changes durable.
    pub fn sync(&mut self) -> (r: Result<(), Ext2Error>)
        requires
            old(self).wf(),
        ensures
            final(self).wf(),
            (Step { result: r, volume: final(self).volume() }) == sync_step(old(self).volume()),
    {
        self.require_writable()?;
        self.flush()
    }

    /// Marks the file system as clean, and ends its use.
    pub fn unmount(&mut self) -> (r: Result<(), Ext2Error>)
        requires
            old(self).wf(),
        ensures
            final(self).wf(),
            (Step { result: r, volume: final(self).volume() }) == unmount_step(
                old(self).volume(),
            ),
    {
        self.require_writable()?;
        let mut superblock = [0u8; BLOCK_BYTES];
        self.read_block_for_update(SUPERBLOCK_BLOCK, &mut superblock)?;
        put_u16(&mut superblock, SUPERBLOCK_BASE + SUPERBLOCK_STATE, STATE_CLEAN);
        self.write_through(SUPERBLOCK_BLOCK, &superblock)?;
        self.health = MountHealth::Unmounted;
        Ok(())
    }

    /// Reads a block.
    pub(crate) fn read_block(&mut self, block: u32, bytes: &mut [u8; BLOCK_BYTES]) -> (r: Result<
        (),
        Ext2Error,
    >)
        requires
            old(self).wf(),
        ensures
            final(self).wf(),
            final(self).volume() == old(self).volume().read(block).volume,
            match old(self).volume().read(block).result {
                Ok(content) => r == Ok::<(), Ext2Error>(()) && final(bytes)@ == content,
                Err(e) => r == Err::<(), Ext2Error>(e),
            },
    {
        if block >= PROFILE_BLOCKS {
            return Err(Ext2Error::CorruptMetadata { field: "block_pointer" });
        }
        let lba: u64 = block as u64 * SECTORS_PER_BLOCK;
        let ghost before = self.device.disk();
        assert(before.start(lba) == block * BLOCK_BYTES);
        match self.device.read_sectors(lba, bytes) {
            Ok(()) => Ok(()),
            Err(error) => Err(Ext2Error::Block(error)),
        }
    }

    /// Reads a block in the course of a change: a failure disables writing.
    pub(crate) fn read_block_for_update(
        &mut self,
        block: u32,
        bytes: &mut [u8; BLOCK_BYTES],
    ) -> (r: Result<(), Ext2Error>)
        requires
            old(self).wf(),
        ensures
            final(self).wf(),
            final(self).volume() == old(self).volume().read_for_update(block).volume,
            match old(self).volume().read_for_update(block).result {
                Ok(content) => r == Ok::<(), Ext2Error>(()) && final(bytes)@ == content,
                Err(e) => r == Err::<(), Ext2Error>(e),
            },
    {
        match self.read_block(block, bytes) {
            Ok(()) => Ok(()),
            Err(error) => {
                self.poison();
                Err(error)
            },
        }
    }

    /// Writes a block. A failure of the device disables writing.
    pub(crate) fn write_block(&mut self, block: u32, bytes: &[u8; BLOCK_BYTES]) -> (r: Result<
        (),
        Ext2Error,
    >)
        requires
            old(self).wf(),
        ensures
            final(self).wf(),
            (Step { result: r, volume: final(self).volume() }) == old(self).volume().write(
                block,
                bytes@,
            ),
    {
        if block >= PROFILE_BLOCKS {
            return Err(Ext2Error::CorruptMetadata { field: "block_pointer" });
        }
        let lba: u64 = block as u64 * SECTORS_PER_BLOCK;
        let ghost before = self.device.disk();
        let ghost v = self.volume();
        assert(before.start(lba) == block * BLOCK_BYTES);
        match self.device.write_sectors(lba, bytes) {
            Ok(()) => {
                assert(self.volume().blocks =~~= v.blocks.update(block as int, bytes@));
                Ok(())
            },
            Err(error) => {
                self.poison();
                assert(self.volume().blocks =~~= v.blocks.update(
                    block as int,
                    Seq::new(BLOCK_BYTES as nat, |i: int| before.answer()->left[i]),
                ));
                Err(Ext2Error::Block(error))
            },
        }
    }

    /// Makes what was written durable. A failure disables writing.
    pub(crate) fn flush(&mut self) -> (r: Result<(), Ext2Error>)
        requires
            old(self).wf(),
        ensures
            final(self).wf(),
            (Step { result: r, volume: final(self).volume() }) == old(self).volume().flush(),
    {
        match self.device.flush() {
            Ok(()) => Ok(()),
            Err(error) => {
                self.poison();
                Err(Ext2Error::Block(error))
            },
        }
    }

    /// Writes a block and makes it durable.
    pub(crate) fn write_through(&mut self, block: u32, bytes: &[u8; BLOCK_BYTES]) -> (r: Result<
        (),
        Ext2Error,
    >)
        requires
            old(self).wf(),
        ensures
            final(self).wf(),
            (Step { result: r, volume: final(self).volume() })
                == old(self).volume().write_through(block, bytes@),
    {
        self.write_block(block, bytes)?;
        self.flush()
    }

    /// Disables writing.
    pub(crate) fn poison(&mut self)
        requires
            old(self).wf(),
        ensures
            final(self).wf(),
            final(self).volume() == old(self).volume().poisoned(),
    {
        self.health = MountHealth::WriteFailed;
    }

    /// Refuses a change where the file system takes none.
    pub(crate) fn require_writable(&self) -> (r: Result<(), Ext2Error>)
        ensures
            r == self.volume().writable(),
    {
        match self.health {
            MountHealth::Writable => Ok(()),
            MountHealth::ReadOnly => Err(Ext2Error::ReadOnly),
            MountHealth::WriteFailed => Err(Ext2Error::WriteDisabled),
            MountHealth::Unmounted => Err(Ext2Error::WriteDisabled),
        }
    }

    /// Refuses a read after the file system was unmounted.
    pub(crate) fn require_mounted(&self) -> (r: Result<(), Ext2Error>)
        ensures
            r == self.volume().readable(),
    {
        match self.health {
            MountHealth::Unmounted => Err(Ext2Error::WriteDisabled),
            _ => Ok(()),
        }
    }

    /// Where the bitmaps and the inode table are.
    pub(crate) fn geometry(&self) -> (geometry: Geometry)
        ensures
            geometry == self.volume().geometry,
    {
        self.geometry
    }
}
} // verus!
