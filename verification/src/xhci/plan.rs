//! What a driver asks of the machine that it runs on.
//!
//! A driver does not touch registers or memory itself. It plans what is to be done up to the
//! next point at which it needs an answer; the machine carries the plan out in order and gives
//! the answer to its last action.
use vstd::prelude::*;

use crate::bytes::{copy_range, put_u32, put_u64, to_le32, to_le64};
use crate::memory::{direct_address, directly_mapped};
use crate::pci::PciAddress;
use crate::xhci::XhciError;

verus! {

/// Something to be done. The answer to it is `Done` where no other is named.
pub enum Action {
    /// Map the registers of the device.
    MapRegisters { base: u64, len: usize },
    /// Read a register. The answer is its `Word`.
    Read { offset: u32 },
    /// Write a register.
    Write { offset: u32, value: u32 },
    /// Write memory at a physical address.
    Store { address: u64, bytes: Vec<u8> },
    /// Write memory that was given out, `at` bytes behind where the processor sees it.
    Fill { base: u64, at: usize, bytes: Vec<u8> },
    /// Make all that was stored visible to the device before what follows.
    Fence,
    /// Give out zeroed memory. The answer says where the `Memory` is.
    Allocate { size: usize, align: usize },
    /// Read sixteen bytes at a physical address. The answer is the `Entry`.
    Load { address: u64 },
    /// Read eight bytes at a physical address. The answer is the `Start`.
    LoadStart { address: u64 },
    /// Tell the time. The answer is the `Ticks`.
    Time,
    /// Let a device reach memory on its own.
    EnableBusMaster { device: PciAddress },
}

/// Something that was done.
pub enum Deed {
    MapRegisters { base: u64, len: usize },
    Read { offset: u32 },
    Write { offset: u32, value: u32 },
    Store { address: u64, bytes: Seq<u8> },
    Fill { base: u64, at: usize, bytes: Seq<u8> },
    Fence,
    Allocate { size: usize, align: usize },
    Load { address: u64 },
    LoadStart { address: u64 },
    Time,
    EnableBusMaster { device: PciAddress },
}

impl View for Action {
    type V = Deed;

    open spec fn view(&self) -> Deed {
        match *self {
            Action::MapRegisters { base, len } => Deed::MapRegisters { base, len },
            Action::Read { offset } => Deed::Read { offset },
            Action::Write { offset, value } => Deed::Write { offset, value },
            Action::Store { address, bytes } => Deed::Store { address, bytes: bytes@ },
            Action::Fill { base, at, bytes } => Deed::Fill { base, at, bytes: bytes@ },
            Action::Fence => Deed::Fence,
            Action::Allocate { size, align } => Deed::Allocate { size, align },
            Action::Load { address } => Deed::Load { address },
            Action::LoadStart { address } => Deed::LoadStart { address },
            Action::Time => Deed::Time,
            Action::EnableBusMaster { device } => Deed::EnableBusMaster { device },
        }
    }
}

/// The answer to the last action of a plan.
pub enum Answer {
    Done,
    Word(u32),
    Ticks(u64),
    /// Where the processor sees the memory, and where the device does.
    Memory { cpu: u64, device: u64 },
    Entry([u8; 16]),
    Start([u8; 8]),
    /// The last action could not be carried out.
    Failed(XhciError),
}

/// The actions up to the next answer.
pub struct Plan {
    pub actions: Vec<Action>,
}

impl View for Plan {
    type V = Seq<Deed>;

    open spec fn view(&self) -> Seq<Deed> {
        Seq::new(self.actions@.len(), |i: int| self.actions@[i]@)
    }
}

/// What a part of a driver decides, and what is planned then.
pub struct Planned<T> {
    pub result: Result<T, XhciError>,
    pub deeds: Seq<Deed>,
}

impl<T> Planned<T> {
    /// Goes on unless the driver failed.
    pub open spec fn and_then<U>(self, next: spec_fn(T, Seq<Deed>) -> Planned<U>) -> Planned<U> {
        match self.result {
            Ok(value) => next(value, self.deeds),
            Err(e) => Planned { result: Err(e), deeds: self.deeds },
        }
    }
}

/// A decision that plans nothing more.
pub open spec fn decided<T>(deeds: Seq<Deed>, result: Result<T, XhciError>) -> Planned<T> {
    Planned { result, deeds }
}

/// One more action.
pub open spec fn also(deeds: Seq<Deed>, deed: Deed) -> Planned<()> {
    Planned { result: Ok(()), deeds: deeds.push(deed) }
}

/// An offset that names a register: a whole word in the window.
pub open spec fn is_register(len: usize, offset: int) -> bool {
    0 <= offset <= u32::MAX && offset % 4 == 0 && offset + 4 <= len
}

/// Reads a register.
pub open spec fn plan_read(deeds: Seq<Deed>, len: usize, offset: int) -> Planned<()> {
    if is_register(len, offset) {
        also(deeds, Deed::Read { offset: offset as u32 })
    } else {
        decided(deeds, Err(XhciError::InvalidRegister))
    }
}

/// Writes a register.
pub open spec fn plan_write(deeds: Seq<Deed>, len: usize, offset: int, value: u32) -> Planned<()> {
    if is_register(len, offset) {
        also(deeds, Deed::Write { offset: offset as u32, value })
    } else {
        decided(deeds, Err(XhciError::InvalidRegister))
    }
}

/// Writes a register of two words, the lower first.
pub open spec fn plan_write64(
    deeds: Seq<Deed>,
    len: usize,
    offset: int,
    value: u64,
) -> Planned<()> {
    if offset + 4 > u32::MAX {
        decided(deeds, Err(XhciError::InvalidRegister))
    } else {
        plan_write(deeds, len, offset, (value % 0x1_0000_0000) as u32).and_then(
            |u: (), deeds: Seq<Deed>|
                plan_write(deeds, len, offset + 4, (value / 0x1_0000_0000) as u32),
        )
    }
}

/// Writes memory.
pub open spec fn plan_store(deeds: Seq<Deed>, address: int, bytes: Seq<u8>) -> Planned<()> {
    if directly_mapped(address, bytes.len() as int) {
        also(deeds, Deed::Store { address: address as u64, bytes })
    } else {
        decided(deeds, Err(XhciError::InvalidRegister))
    }
}

impl Plan {
    /// Nothing is planned.
    pub fn new() -> (plan: Plan)
        ensures
            plan@ == Seq::<Deed>::empty(),
    {
        let plan = Plan { actions: Vec::new() };
        assert(plan@ =~= Seq::<Deed>::empty());
        plan
    }

    /// Plans one more action.
    pub fn push(&mut self, action: Action)
        ensures
            final(self)@ == old(self)@.push(action@),
    {
        let ghost before = self@;
        self.actions.push(action);
        assert(self@ =~= before.push(action@));
    }

    /// Writes a word to memory, `offset` bytes behind `base`.
    pub fn store_u32(&mut self, base: u64, offset: u64, value: u32) -> (r: Result<(), XhciError>)
        ensures
            (Planned { result: r, deeds: final(self)@ }) == plan_store(
                old(self)@,
                base + offset,
                to_le32(value),
            ),
    {
        let mut bytes: [u8; 4] = [0; 4];
        put_u32(&mut bytes, 0, value);
        assert(bytes@ =~= to_le32(value));
        self.store(base, offset, &bytes)
    }

    /// Writes a word to memory that was given out.
    pub fn fill_u32(&mut self, base: u64, at: usize, value: u32)
        ensures
            final(self)@ == old(self)@.push(Deed::Fill { base, at, bytes: to_le32(value) }),
    {
        let mut bytes: [u8; 4] = [0; 4];
        put_u32(&mut bytes, 0, value);
        let copy = copy_range(&bytes, 0, 4);
        assert(copy@ =~= to_le32(value));
        self.push(Action::Fill { base, at, bytes: copy });
    }

    /// Writes two words to memory that was given out.
    pub fn fill_u64(&mut self, base: u64, at: usize, value: u64)
        ensures
            final(self)@ == old(self)@.push(Deed::Fill { base, at, bytes: to_le64(value) }),
    {
        let mut bytes: [u8; 8] = [0; 8];
        put_u64(&mut bytes, 0, value);
        let copy = copy_range(&bytes, 0, 8);
        assert(copy@ =~= to_le64(value));
        self.push(Action::Fill { base, at, bytes: copy });
    }

    /// Writes two words to memory, `offset` bytes behind `base`.
    pub fn store_u64(&mut self, base: u64, offset: u64, value: u64) -> (r: Result<(), XhciError>)
        ensures
            (Planned { result: r, deeds: final(self)@ }) == plan_store(
                old(self)@,
                base + offset,
                to_le64(value),
            ),
    {
        let mut bytes: [u8; 8] = [0; 8];
        put_u64(&mut bytes, 0, value);
        assert(bytes@ =~= to_le64(value));
        self.store(base, offset, &bytes)
    }

    /// Writes memory, `offset` bytes behind `base`.
    pub fn store(&mut self, base: u64, offset: u64, bytes: &[u8]) -> (r: Result<(), XhciError>)
        ensures
            (Planned { result: r, deeds: final(self)@ }) == plan_store(
                old(self)@,
                base + offset,
                bytes@,
            ),
    {
        let address: u64 = match base.checked_add(offset) {
            Some(address) => address,
            None => return Err(XhciError::InvalidRegister),
        };
        if direct_address(address, bytes.len()).is_none() {
            return Err(XhciError::InvalidRegister);
        }
        let copy = copy_range(bytes, 0, bytes.len());
        assert(copy@ =~= bytes@);
        self.push(Action::Store { address, bytes: copy });
        Ok(())
    }
}

/// The registers of a device: a window of bytes, of which each word is a register.
#[derive(Clone, Copy, Debug, PartialEq, Eq, Structural)]
pub struct KernelMmio {
    pub len: usize,
}

impl KernelMmio {
    /// A window of `len` bytes.
    pub fn new(len: usize) -> (mmio: KernelMmio)
        ensures
            mmio.len == len,
    {
        KernelMmio { len }
    }

    /// Whether a word at an offset is a register.
    pub fn check(&self, offset: u32) -> (r: Result<usize, XhciError>)
        ensures
            r == (if is_register(self.len, offset as int) {
                Ok(offset as usize)
            } else {
                Err(XhciError::InvalidRegister)
            }),
    {
        if offset % 4 != 0 || self.len < 4 || offset as usize > self.len - 4 {
            return Err(XhciError::InvalidRegister);
        }
        Ok(offset as usize)
    }

    /// Plans to read the register `offset` bytes behind `base`.
    pub fn read(&self, plan: &mut Plan, base: u32, offset: u32) -> (r: Result<(), XhciError>)
        ensures
            (Planned { result: r, deeds: final(plan)@ }) == plan_read(
                old(plan)@,
                self.len,
                base + offset,
            ),
    {
        let place: u32 = match base.checked_add(offset) {
            Some(place) => place,
            None => return Err(XhciError::InvalidRegister),
        };
        let _ = self.check(place)?;
        plan.push(Action::Read { offset: place });
        Ok(())
    }

    /// Plans to write the register `offset` bytes behind `base`.
    pub fn write(&self, plan: &mut Plan, base: u32, offset: u32, value: u32) -> (r: Result<
        (),
        XhciError,
    >)
        ensures
            (Planned { result: r, deeds: final(plan)@ }) == plan_write(
                old(plan)@,
                self.len,
                base + offset,
                value,
            ),
    {
        let place: u32 = match base.checked_add(offset) {
            Some(place) => place,
            None => return Err(XhciError::InvalidRegister),
        };
        let _ = self.check(place)?;
        plan.push(Action::Write { offset: place, value });
        Ok(())
    }

    /// Plans to write the register of two words `offset` bytes behind `base`.
    pub fn write64(&self, plan: &mut Plan, base: u32, offset: u32, value: u64) -> (r: Result<
        (),
        XhciError,
    >)
        ensures
            (Planned { result: r, deeds: final(plan)@ }) == plan_write64(
                old(plan)@,
                self.len,
                base + offset,
                value,
            ),
    {
        let place: u32 = match base.checked_add(offset) {
            Some(place) => place,
            None => return Err(XhciError::InvalidRegister),
        };
        if place > u32::MAX - 4 {
            return Err(XhciError::InvalidRegister);
        }
        self.write(plan, place, 0, (value % 0x1_0000_0000) as u32)?;
        self.write(plan, place, 4, (value / 0x1_0000_0000) as u32)
    }
}

} // verus!
