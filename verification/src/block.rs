//! Sector-addressed storage devices.
use vstd::prelude::*;

use crate::bytes::splice;

verus! {

/// Why a device refused or failed a request.
#[derive(Clone, Copy, Debug, PartialEq, Eq, Structural)]
pub enum BlockError {
    InvalidRequest,
    OutOfRange,
    Transport,
    Flush,
}

/// The size of a device, in sectors.
#[derive(Clone, Copy, Debug, PartialEq, Eq, Structural)]
pub struct BlockGeometry {
    pub logical_sector_size: u32,
    pub sector_count: u64,
}

/// What a device answers to one request.
pub enum Answer {
    Done,
    /// The request failed. A failed write leaves `left` in the sectors that it addressed.
    Failed { error: BlockError, left: Seq<u8> },
}

/// A request that a device has carried out and that changes what it holds.
pub enum DeviceOp {
    Write { lba: u64, bytes: Seq<u8> },
    Flush,
}

/// The model of a device.
///
/// `answers` is the answer to every request that the device will ever get, by the request's
/// position; `clock` counts the requests so far. Nothing that runs can read `answers`: a
/// contract over it states what follows from each possible course of answers.
pub struct Disk {
    pub bytes: Seq<u8>,
    pub shape: BlockGeometry,
    pub log: Seq<DeviceOp>,
    pub clock: nat,
    pub answers: spec_fn(nat) -> Answer,
}

impl Disk {
    /// The answer to the next request.
    pub open spec fn answer(self) -> Answer {
        (self.answers)(self.clock)
    }

    /// The device after a request that changes nothing on it.
    pub open spec fn ticked(self) -> Disk {
        Disk { clock: self.clock + 1, ..self }
    }

    /// The first byte of a sector.
    pub open spec fn start(self, lba: u64) -> int {
        lba * self.shape.logical_sector_size
    }

    /// Whether `len` bytes from sector `lba` on are a whole number of sectors of the device.
    pub open spec fn covers(self, lba: u64, len: nat) -> bool {
        &&& self.shape.logical_sector_size > 0
        &&& len % (self.shape.logical_sector_size as nat) == 0
        &&& self.start(lba) + len <= self.bytes.len()
    }

    /// The device after a write request.
    pub open spec fn written(self, lba: u64, src: Seq<u8>) -> Disk {
        match self.answer() {
            Answer::Done => Disk {
                bytes: splice(self.bytes, self.start(lba), src),
                log: self.log.push(DeviceOp::Write { lba, bytes: src }),
                ..self.ticked()
            },
            Answer::Failed { left, .. } => Disk {
                bytes: splice(
                    self.bytes,
                    self.start(lba),
                    Seq::new(src.len(), |i: int| left[i]),
                ),
                ..self.ticked()
            },
        }
    }

    /// The device after a flush request.
    pub open spec fn flushed(self) -> Disk {
        match self.answer() {
            Answer::Done => Disk { log: self.log.push(DeviceOp::Flush), ..self.ticked() },
            Answer::Failed { .. } => self.ticked(),
        }
    }
}

/// The result that an answer is reported with.
pub open spec fn reported(answer: Answer) -> Result<(), BlockError> {
    match answer {
        Answer::Done => Ok(()),
        Answer::Failed { error, .. } => Err(error),
    }
}

/// A device that reads and writes whole sectors.
///
/// Requests outside the device are refused by the device; the contracts speak of the others.
pub trait BlockDevice {
    closed spec fn disk(&self) -> Disk {
        arbitrary()
    }

    fn geometry(&self) -> (shape: BlockGeometry)
        ensures
            shape == self.disk().shape,
            self.disk().bytes.len() == shape.logical_sector_size * shape.sector_count,
    ;

    fn read_sectors(&mut self, first_lba: u64, dst: &mut [u8]) -> (r: Result<(), BlockError>)
        ensures
            final(dst)@.len() == old(dst)@.len(),
            old(self).disk().covers(first_lba, old(dst)@.len()) ==> {
                &&& final(self).disk() == old(self).disk().ticked()
                &&& r == reported(old(self).disk().answer())
                &&& r is Ok ==> final(dst)@ == old(self).disk().bytes.subrange(
                    old(self).disk().start(first_lba),
                    old(self).disk().start(first_lba) + old(dst)@.len(),
                )
            },
    ;

    fn write_sectors(&mut self, first_lba: u64, src: &[u8]) -> (r: Result<(), BlockError>)
        ensures
            old(self).disk().covers(first_lba, src@.len()) ==> {
                &&& final(self).disk() == old(self).disk().written(first_lba, src@)
                &&& r == reported(old(self).disk().answer())
            },
    ;

    fn flush(&mut self) -> (r: Result<(), BlockError>)
        ensures
            final(self).disk() == old(self).disk().flushed(),
            r == reported(old(self).disk().answer()),
    ;
}

} // verus!
