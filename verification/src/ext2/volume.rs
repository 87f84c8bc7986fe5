//! The mathematical model of a mounted file system: its blocks, the requests made of its
//! device, and its health.
use vstd::prelude::*;

use crate::block::{Answer, DeviceOp};

use super::on_disk::BLOCK_BYTES;
use super::validate::Geometry;
use super::{Ext2Error, MountHealth, PROFILE_BLOCKS, SECTORS_PER_BLOCK};

verus! {

/// A mounted file system.
///
/// `log` holds the requests that changed the device, oldest first. `answers` and `clock` are
/// those of the device: what it answers to each request, and how many requests it has had.
#[verifier::ext_equal]
pub struct Volume {
    pub blocks: Seq<Seq<u8>>,
    pub log: Seq<DeviceOp>,
    pub clock: nat,
    pub answers: spec_fn(nat) -> Answer,
    pub health: MountHealth,
    pub geometry: Geometry,
}

/// What an operation returns, and the file system that it leaves.
pub struct Step<T> {
    pub result: Result<T, Ext2Error>,
    pub volume: Volume,
}

impl<T> Step<T> {
    /// Goes on with `next` where this step succeeded.
    pub open spec fn and_then<U>(self, next: spec_fn(T, Volume) -> Step<U>) -> Step<U> {
        match self.result {
            Ok(value) => next(value, self.volume),
            Err(error) => Step { result: Err(error), volume: self.volume },
        }
    }
}

/// The device carries out every request from now on.
pub open spec fn answering(v: Volume) -> bool {
    forall|n: nat| v.clock <= n ==> #[trigger] (v.answers)(n) is Done
}

/// The error for a damaged field.
pub open spec fn corrupt(field: &'static str) -> Ext2Error {
    Ext2Error::CorruptMetadata { field }
}

impl Volume {
    /// The file system has its full size, and its geometry is sound.
    pub open spec fn wf(self) -> bool {
        &&& self.blocks.len() == PROFILE_BLOCKS
        &&& forall|b: int| 0 <= b < PROFILE_BLOCKS ==> (#[trigger] self.blocks[b]).len() == BLOCK_BYTES
        &&& self.geometry.wf()
    }

    /// The answer to the next request.
    pub open spec fn answer(self) -> Answer {
        (self.answers)(self.clock)
    }

    /// The file system after a request that changed nothing.
    pub open spec fn ticked(self) -> Volume {
        Volume { clock: self.clock + 1, ..self }
    }

    /// The file system with writing disabled by a failure.
    pub open spec fn poisoned(self) -> Volume {
        Volume { health: MountHealth::WriteFailed, ..self }
    }

    /// Stops with `error`.
    pub open spec fn fail<T>(self, error: Ext2Error) -> Step<T> {
        Step { result: Err(error), volume: self }
    }

    /// Ends with `value`.
    pub open spec fn done<T>(self, value: T) -> Step<T> {
        Step { result: Ok(value), volume: self }
    }

    /// Reads a block.
    pub open spec fn read(self, block: u32) -> Step<Seq<u8>> {
        if block >= PROFILE_BLOCKS {
            self.fail(corrupt("block_pointer"))
        } else {
            match self.answer() {
                Answer::Done => self.ticked().done(self.blocks[block as int]),
                Answer::Failed { error, .. } => self.ticked().fail(Ext2Error::Block(error)),
            }
        }
    }

    /// Reads a block in the course of a change: a failure disables writing.
    pub open spec fn read_for_update(self, block: u32) -> Step<Seq<u8>> {
        let s = self.read(block);
        if s.result is Ok {
            s
        } else {
            Step { volume: s.volume.poisoned(), ..s }
        }
    }

    /// The file system with the content of one block replaced.
    pub open spec fn with_block(self, block: u32, bytes: Seq<u8>) -> Volume {
        Volume { blocks: self.blocks.update(block as int, bytes), ..self }
    }

    /// Writes a block. A failure disables writing.
    pub open spec fn write(self, block: u32, bytes: Seq<u8>) -> Step<()> {
        if block >= PROFILE_BLOCKS {
            self.fail(corrupt("block_pointer"))
        } else {
            match self.answer() {
                Answer::Done => Volume {
                    log: self.log.push(
                        DeviceOp::Write { lba: (block * SECTORS_PER_BLOCK) as u64, bytes },
                    ),
                    ..self.ticked().with_block(block, bytes)
                }.done(()),
                Answer::Failed { error, left } => self.ticked().with_block(
                    block,
                    Seq::new(BLOCK_BYTES as nat, |i: int| left[i]),
                ).poisoned().fail(Ext2Error::Block(error)),
            }
        }
    }

    /// Makes what was written durable. A failure disables writing.
    pub open spec fn flush(self) -> Step<()> {
        match self.answer() {
            Answer::Done => Volume {
                log: self.log.push(DeviceOp::Flush),
                ..self.ticked()
            }.done(()),
            Answer::Failed { error, .. } => self.ticked().poisoned().fail(Ext2Error::Block(error)),
        }
    }

    /// Writes a block and makes it durable.
    pub open spec fn write_through(self, block: u32, bytes: Seq<u8>) -> Step<()> {
        let s = self.write(block, bytes);
        if s.result is Ok {
            s.volume.flush()
        } else {
            s
        }
    }

    /// Whether the file system takes changes, and why not.
    pub open spec fn writable(self) -> Result<(), Ext2Error> {
        match self.health {
            MountHealth::Writable => Ok(()),
            MountHealth::ReadOnly => Err(Ext2Error::ReadOnly),
            MountHealth::WriteFailed => Err(Ext2Error::WriteDisabled),
            MountHealth::Unmounted => Err(Ext2Error::WriteDisabled),
        }
    }

    /// Whether the file system can be read, and why not.
    pub open spec fn readable(self) -> Result<(), Ext2Error> {
        if self.health == MountHealth::Unmounted {
            Err(Ext2Error::WriteDisabled)
        } else {
            Ok(())
        }
    }
}

} // verus!
