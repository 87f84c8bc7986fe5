//! Finding the USB controller among the PCI devices.
use vstd::prelude::*;

use crate::bytes::{get_u16, get_u32, le16, le32};
use crate::heap::Heap;

pub use crate::acpi::McfgRegion;

pub mod search;
pub mod sizing;

verus! {

/// A function of a device.
#[derive(Clone, Copy, Debug, PartialEq, Eq, Hash, Structural)]
pub struct PciAddress {
    pub segment: u16,
    pub bus: u8,
    pub device: u8,
    pub function: u8,
}

#[derive(Clone, Copy, Debug, PartialEq, Eq, Structural)]
pub enum PciError {
    OutOfRange,
    Transport,
    InvalidBar,
    NoXhci,
    MultipleXhci,
    UnsupportedPlatform,
    Allocation,
}

/// The configuration registers of the devices.
///
/// A write may go only to a register of a device that was found, and what it overwrites must
/// have been saved, so that it can be restored.
pub trait PciConfig: Sized {
    /// What reading a register gives.
    closed spec fn register(&self, address: PciAddress, offset: u16) -> Result<u32, PciError> {
        arbitrary()
    }

    /// What writing a register returns, and the registers afterwards.
    closed spec fn written(self, address: PciAddress, offset: u16, value: u32) -> (
        Result<(), PciError>,
        Self,
    ) {
        arbitrary()
    }

    fn read_u32(&self, address: PciAddress, offset: u16) -> (r: Result<u32, PciError>)
        ensures
            r == self.register(address, offset),
    ;

    fn write_u32(&mut self, address: PciAddress, offset: u16, value: u32) -> (r: Result<
        (),
        PciError,
    >)
        ensures
            (r, *final(self)) == old(self).written(address, offset, value),
    ;
}

/// The memory that a base address register asks for.
#[derive(Clone, Copy, Debug, PartialEq, Eq, Structural)]
pub struct BarInfo {
    pub base: u64,
    pub size: u64,
    pub is_64: bool,
}

/// A USB controller and its registers.
#[derive(Clone, Copy, Debug, PartialEq, Eq, Structural)]
pub struct XhciPciDevice {
    pub address: PciAddress,
    pub bar: BarInfo,
}

/// What a USB controller says of itself.
#[derive(Clone, Copy, Debug, PartialEq, Eq)]
pub struct XhciCaps {
    pub cap_length: u8,
    pub interface_version: u16,
    pub max_slots: u8,
    pub max_ports: u8,
    pub context_64: bool,
    pub addr_64: bool,
    pub scratchpad_count: u16,
    pub legacy_owned: bool,
    pub usb2_bdf_range: (u8, u8),
    pub usb3_bdf_range: (u8, u8),
}

pub const ECAM_OFFSET_MAX: u16 = 4096;

pub const DEVICES_PER_BUS: u8 = 32;

pub const FUNCTIONS_PER_DEVICE: u8 = 8;

/// Device slots on all buses.
pub const SLOTS: u32 = 8192;

pub const ALL_ONES: u32 = 0xFFFF_FFFF;

/// The class of a USB controller of the right kind.
pub const XHCI_CLASS: u32 = 0x000C_0330;

pub const REGISTER_ID: u16 = 0x00;

pub const REGISTER_COMMAND: u16 = 0x04;

pub const REGISTER_CLASS: u16 = 0x08;

pub const REGISTER_HEADER: u16 = 0x0C;

pub const REGISTER_BAR0: u16 = 0x10;

pub const REGISTER_BAR1: u16 = 0x14;

/// Whether an address and an offset name a register in a region.
pub open spec fn addressable(region: McfgRegion, address: PciAddress, offset: u16) -> bool {
    &&& address.segment == 0
    &&& address.device < DEVICES_PER_BUS
    &&& address.function < FUNCTIONS_PER_DEVICE
    &&& offset < ECAM_OFFSET_MAX
    &&& offset % 4 == 0
    &&& region.bus_start <= address.bus <= region.bus_end
}

/// Where a register is.
pub open spec fn register_place(region: McfgRegion, address: PciAddress, offset: u16) -> int {
    region.base + address.bus * 0x10_0000 + address.device * 0x8000 + address.function * 0x1000
        + offset
}

/// Where a register of a function is, by its bus, device and function.
pub fn ecam_address(region: &McfgRegion, address: PciAddress, offset: u16) -> (r: Result<
    u64,
    PciError,
>)
    ensures
        r == (if addressable(*region, address, offset) && register_place(*region, address, offset)
            <= u64::MAX {
            Ok(register_place(*region, address, offset) as u64)
        } else {
            Err(PciError::OutOfRange)
        }),
{
    if address.segment != 0 || address.device >= DEVICES_PER_BUS || address.function
        >= FUNCTIONS_PER_DEVICE || offset >= ECAM_OFFSET_MAX || offset % 4 != 0 || address.bus
        < region.bus_start || address.bus > region.bus_end {
        return Err(PciError::OutOfRange);
    }
    let within: u64 = address.bus as u64 * 0x10_0000 + address.device as u64 * 0x8000
        + address.function as u64 * 0x1000 + offset as u64;
    match region.base.checked_add(within) {
        Some(place) => Ok(place),
        None => Err(PciError::OutOfRange),
    }
}

/// Two registers of a region are in the same place only if they are the same.
pub proof fn law_registers_do_not_overlap(
    region: McfgRegion,
    a: PciAddress,
    x: u16,
    b: PciAddress,
    y: u16,
)
    requires
        addressable(region, a, x),
        addressable(region, b, y),
        register_place(region, a, x) == register_place(region, b, y),
    ensures
        a == b && x == y,
{
}

/// Functions that were found, with their class codes.
pub type Found = Seq<(PciAddress, u32)>;

/// A failure of any kind while a function is looked at.
pub open spec fn transported(r: Result<u32, PciError>) -> Result<u32, PciError> {
    match r {
        Ok(value) => Ok(value),
        Err(_) => Err(PciError::Transport),
    }
}

/// A function in a slot. Slots count the devices of all buses.
pub open spec fn slot_function(slot: int, function: int) -> PciAddress {
    PciAddress {
        segment: 0,
        bus: (slot / 32) as u8,
        device: (slot % 32) as u8,
        function: function as u8,
    }
}

/// Looks at the functions of a device from `function` on.
pub open spec fn functions_from<C: PciConfig>(
    config: C,
    slot: int,
    function: int,
    count: int,
    found: Found,
) -> Result<Found, PciError>
    decreases count - function,
{
    if function >= count {
        Ok(found)
    } else {
        let address = slot_function(slot, function);
        match transported(config.register(address, REGISTER_ID)) {
            Err(e) => Err(e),
            Ok(id) => if id % 0x10000 == 0xFFFF {
                functions_from(config, slot, function + 1, count, found)
            } else {
                match transported(config.register(address, REGISTER_CLASS)) {
                    Err(e) => Err(e),
                    Ok(class) => functions_from(
                        config,
                        slot,
                        function + 1,
                        count,
                        found.push((address, class / 256)),
                    ),
                }
            },
        }
    }
}

/// Looks at the device in a slot. A slot outside the region, or without a device, has none.
pub open spec fn device_in<C: PciConfig>(config: C, slot: int, found: Found) -> Result<
    Found,
    PciError,
> {
    let first = slot_function(slot, 0);
    match config.register(first, REGISTER_ID) {
        Err(PciError::OutOfRange) => Ok(found),
        Err(e) => Err(e),
        Ok(id) => if id % 0x10000 == 0xFFFF {
            Ok(found)
        } else {
            match transported(config.register(first, REGISTER_HEADER)) {
                Err(e) => Err(e),
                Ok(header) => functions_from(
                    config,
                    slot,
                    0,
                    if header / 0x80_0000 % 2 == 1 {
                        8
                    } else {
                        1
                    },
                    found,
                ),
            }
        },
    }
}

/// Looks at the slots from `slot` on.
pub open spec fn slots_from<C: PciConfig>(config: C, slot: int, found: Found) -> Result<
    Found,
    PciError,
>
    decreases SLOTS - slot,
{
    if slot >= SLOTS {
        Ok(found)
    } else {
        match device_in(config, slot, found) {
            Err(e) => Err(e),
            Ok(found) => slots_from(config, slot + 1, found),
        }
    }
}

/// All functions there are, with their class codes.
pub open spec fn all_functions<C: PciConfig>(config: C) -> Result<Found, PciError> {
    slots_from(config, 0, Seq::empty())
}

/// A slot has a device, and no error comes before its first function is noted.
pub open spec fn notes_device<C: PciConfig>(config: C, slot: int) -> bool {
    let first = slot_function(slot, 0);
    let id = config.register(first, REGISTER_ID);
    &&& id is Ok && id->Ok_0 % 0x10000 != 0xFFFF
    &&& config.register(first, REGISTER_HEADER) is Ok
    &&& config.register(first, REGISTER_CLASS) is Ok
}

/// A slot has no device.
pub open spec fn empty_slot<C: PciConfig>(config: C, slot: int) -> bool {
    match config.register(slot_function(slot, 0), REGISTER_ID) {
        Err(e) => e == PciError::OutOfRange,
        Ok(id) => id % 0x10000 == 0xFFFF,
    }
}

/// A function is noted, from `slot` on, before any error: that takes memory.
pub open spec fn notes_from<C: PciConfig>(config: C, slot: int) -> bool
    decreases SLOTS - slot,
{
    &&& slot < SLOTS
    &&& notes_device(config, slot) || empty_slot(config, slot) && notes_from(config, slot + 1)
}

/// A function is noted before any error: that takes memory.
pub open spec fn notes_functions<C: PciConfig>(config: C) -> bool {
    notes_from(config, 0)
}

/// A function is noted, and memory is short.
pub open spec fn short_of_memory<C: PciConfig>(config: C, error: PciError) -> bool {
    error == PciError::Allocation && notes_functions(config)
}

/// Notes a function, where there is room for it.
pub fn note_function(found: &mut Vec<(PciAddress, u32)>, entry: (PciAddress, u32), room: bool) -> (r:
    Result<(), PciError>)
    ensures
        if room {
            r is Ok && final(found)@ == old(found)@.push(entry)
        } else {
            r == Err::<(), _>(PciError::Allocation) && final(found)@ == old(found)@
        },
{
    if !room {
        return Err(PciError::Allocation);
    }
    found.push(entry);
    Ok(())
}

/// Notes a controller, where there is room for it.
pub fn note_controller(found: &mut Vec<PciAddress>, address: PciAddress, room: bool) -> (r: Result<
    (),
    PciError,
>)
    ensures
        if room {
            r is Ok && final(found)@ == old(found)@.push(address)
        } else {
            r == Err::<(), _>(PciError::Allocation) && final(found)@ == old(found)@
        },
{
    if !room {
        return Err(PciError::Allocation);
    }
    found.push(address);
    Ok(())
}

/// Reads a register of a function that is being looked at.
fn read_register<C: PciConfig>(config: &C, address: PciAddress, offset: u16) -> (r: Result<
    u32,
    PciError,
>)
    ensures
        r == transported(config.register(address, offset)),
{
    match config.read_u32(address, offset) {
        Ok(value) => Ok(value),
        Err(_) => Err(PciError::Transport),
    }
}

/// Looks at the functions of a device, unless the heap refuses to hold one.
fn enumerate_device<C: PciConfig>(
    config: &C,
    bus: u8,
    device: u8,
    found: &mut Vec<(PciAddress, u32)>,
    heap: &mut Heap,
) -> (r: Result<(), PciError>)
    requires
        device < 32,
        !old(heap).refused(),
    ensures
        r is Ok ==> {
            ||| final(found)@ == old(found)@ && empty_slot(*config, bus * 32 + device)
            ||| final(found)@.len() > old(found)@.len() && notes_device(*config, bus * 32 + device)
        },
        match r {
            Ok(()) => !final(heap).refused() && device_in(
                *config,
                bus * 32 + device,
                old(found)@,
            ) == Ok::<Found, PciError>(final(found)@),
            Err(e) => if final(heap).refused() {
                e == PciError::Allocation && notes_device(*config, bus * 32 + device)
            } else {
                device_in(*config, bus * 32 + device, old(found)@) == Err::<Found, PciError>(e)
            },
        },
{
    let ghost slot = bus * 32 + device;
    let first = PciAddress { segment: 0, bus, device, function: 0 };
    assert(first == slot_function(slot, 0));
    let id: u32 = match config.read_u32(first, REGISTER_ID) {
        Ok(id) => id,
        Err(PciError::OutOfRange) => return Ok(()),
        Err(error) => return Err(error),
    };
    if id % 0x10000 == 0xFFFF {
        return Ok(());
    }
    let header: u32 = read_register(config, first, REGISTER_HEADER)?;
    let count: u8 = if header / 0x80_0000 % 2 == 1 {
        8
    } else {
        1
    };
    let mut function: u8 = 0;
    while function < count
        invariant
            function <= count <= 8,
            slot == bus * 32 + device,
            device < 32,
            !heap.refused(),
            config.register(slot_function(slot, 0), REGISTER_ID) == Ok::<u32, PciError>(id),
            id % 0x10000 != 0xFFFF,
            config.register(slot_function(slot, 0), REGISTER_HEADER) is Ok,
            function > 0 ==> notes_device(*config, slot) && found@.len() > old(found)@.len(),
            function == 0 ==> found@ == old(found)@,
            1 <= count,
            device_in(*config, slot, old(found)@) == functions_from(
                *config,
                slot,
                function as int,
                count as int,
                found@,
            ),
        decreases count - function,
    {
        let address = PciAddress { segment: 0, bus, device, function };
        assert(address == slot_function(slot, function as int));
        let present: u32 = read_register(config, address, REGISTER_ID)?;
        if present % 0x10000 != 0xFFFF {
            let class: u32 = read_register(config, address, REGISTER_CLASS)?;
            let room = heap.reserve(found, 1);
            note_function(found, (address, class / 256), room)?;
        }
        function = function + 1;
    }
    Ok(())
}

/// All functions there are, with their class codes. Fails also where one is noted and memory is
/// short.
pub fn enumerate_functions<C: PciConfig>(config: &C) -> (r: Result<
    Vec<(PciAddress, u32)>,
    PciError,
>)
    ensures
        match r {
            Ok(found) => all_functions(*config) == Ok::<Found, PciError>(found@),
            Err(e) => short_of_memory(*config, e) || all_functions(*config) == Err::<
                Found,
                PciError,
            >(e),
        },
{
    enumerate_functions_in(config, &mut Heap::new())
}

/// All functions there are, with their class codes, in memory from a heap. It fails for want of
/// memory exactly where the heap refuses to hold a function.
pub fn enumerate_functions_in<C: PciConfig>(config: &C, heap: &mut Heap) -> (r: Result<
    Vec<(PciAddress, u32)>,
    PciError,
>)
    requires
        !old(heap).refused(),
    ensures
        match r {
            Ok(found) => !final(heap).refused() && all_functions(*config) == Ok::<Found, PciError>(
                found@,
            ) && (found@.len() > 0 ==> notes_functions(*config)),
            Err(e) => if final(heap).refused() {
                short_of_memory(*config, e)
            } else {
                all_functions(*config) == Err::<Found, PciError>(e)
            },
        },
{
    let mut found: Vec<(PciAddress, u32)> = Vec::new();
    let mut slot: u32 = 0;
    while slot < SLOTS
        invariant
            slot <= SLOTS,
            !heap.refused(),
            found@.len() > 0 ==> notes_functions(*config),
            found@.len() == 0 ==> notes_from(*config, slot as int) == notes_functions(*config),
            all_functions(*config) == slots_from(*config, slot as int, found@),
        decreases SLOTS - slot,
    {
        let bus: u8 = (slot / 32) as u8;
        let device: u8 = (slot % 32) as u8;
        assert(bus * 32 + device == slot);
        enumerate_device(config, bus, device, &mut found, heap)?;
        slot = slot + 1;
    }
    Ok(found)
}

/// The USB controllers among the functions from `from` on, behind those already `found`. One
/// that is a bridge does not count.
pub open spec fn controllers_from<C: PciConfig>(
    config: C,
    functions: Found,
    from: int,
    found: Seq<PciAddress>,
) -> Result<Seq<PciAddress>, PciError>
    decreases functions.len() - from,
{
    if from >= functions.len() {
        Ok(found)
    } else {
        let (address, code) = functions[from];
        if code != XHCI_CLASS {
            controllers_from(config, functions, from + 1, found)
        } else {
            match transported(config.register(address, REGISTER_HEADER)) {
                Err(e) => Err(e),
                Ok(header) => if header / 0x10000 % 128 != 0 {
                    controllers_from(config, functions, from + 1, found)
                } else {
                    controllers_from(config, functions, from + 1, found.push(address))
                },
            }
        }
    }
}

/// The USB controllers.
pub open spec fn all_controllers<C: PciConfig>(config: C) -> Result<Seq<PciAddress>, PciError> {
    match all_functions(config) {
        Err(e) => Err(e),
        Ok(functions) => controllers_from(config, functions, 0, Seq::empty()),
    }
}

/// The USB controllers, in the order of their addresses. Fails also where a function is noted and
/// memory is short.
pub fn find_xhci_controllers<C: PciConfig>(config: &C) -> (r: Result<Vec<PciAddress>, PciError>)
    ensures
        match r {
            Ok(found) => all_controllers(*config) == Ok::<Seq<PciAddress>, PciError>(found@)
                && in_order(found@),
            Err(e) => short_of_memory(*config, e) || all_controllers(*config) == Err::<
                Seq<PciAddress>,
                PciError,
            >(e),
        },
{
    find_xhci_controllers_in(config, &mut Heap::new())
}

/// The USB controllers, in the order of their addresses, in memory from a heap. It fails for want of
/// memory exactly where the heap refuses to hold a function or a controller.
pub fn find_xhci_controllers_in<C: PciConfig>(config: &C, heap: &mut Heap) -> (r: Result<
    Vec<PciAddress>,
    PciError,
>)
    requires
        !old(heap).refused(),
    ensures
        match r {
            Ok(found) => !final(heap).refused() && all_controllers(*config) == Ok::<
                Seq<PciAddress>,
                PciError,
            >(found@) && in_order(found@),
            Err(e) => if final(heap).refused() {
                short_of_memory(*config, e)
            } else {
                all_controllers(*config) == Err::<Seq<PciAddress>, PciError>(e)
            },
        },
{
    let functions = enumerate_functions_in(config, heap)?;
    let mut candidates: Vec<PciAddress> = Vec::new();
    let mut i: usize = 0;
    while i < functions.len()
        invariant
            i <= functions@.len(),
            !heap.refused(),
            functions@.len() > 0 ==> notes_functions(*config),
            all_controllers(*config) == controllers_from(
                *config,
                functions@,
                i as int,
                candidates@,
            ),
        decreases functions@.len() - i,
    {
        let (address, code) = functions[i];
        if code == XHCI_CLASS {
            let header: u32 = read_register(config, address, REGISTER_HEADER)?;
            if header / 0x10000 % 128 == 0 {
                let room = heap.reserve(&mut candidates, 1);
                note_controller(&mut candidates, address, room)?;
            }
        }
        i = i + 1;
    }
    proof {
        law_controllers_are_in_order(*config);
    }
    Ok(candidates)
}

/// The one controller among those that were found.
pub open spec fn only_one(found: Seq<PciAddress>) -> Result<PciAddress, PciError> {
    if found.len() == 0 {
        Err(PciError::NoXhci)
    } else if found.len() == 1 {
        Ok(found[0])
    } else {
        Err(PciError::MultipleXhci)
    }
}

/// The one controller among those that were found.
pub fn only_controller(candidates: &[PciAddress]) -> (r: Result<PciAddress, PciError>)
    ensures
        r == only_one(candidates@),
{
    if candidates.len() == 0 {
        return Err(PciError::NoXhci);
    }
    if candidates.len() > 1 {
        return Err(PciError::MultipleXhci);
    }
    Ok(candidates[0])
}

/// The one USB controller there is. Fails also where a function is noted and memory is short.
pub fn find_xhci<C: PciConfig>(config: &C) -> (r: Result<PciAddress, PciError>)
    ensures
        r is Err && short_of_memory(*config, r->Err_0) || r == (match all_controllers(*config) {
            Err(e) => Err(e),
            Ok(found) => only_one(found),
        }),
{
    let candidates = find_xhci_controllers(config)?;
    only_controller(candidates.as_slice())
}

/// The place of an address in the order of buses, devices and functions.
pub open spec fn rank(address: PciAddress) -> int {
    address.bus * 65536 + address.device * 256 + address.function
}

/// Addresses stand in their order, each once.
pub open spec fn in_order(addresses: Seq<PciAddress>) -> bool {
    forall|i: int, j: int|
        0 <= i < j < addresses.len() ==> rank(#[trigger] addresses[i]) < rank(
            #[trigger] addresses[j],
        )
}

/// Functions stand in their order, each once, and before `limit`.
pub(crate) open spec fn found_before(found: Found, limit: int) -> bool {
    &&& forall|i: int| 0 <= i < found.len() ==> rank((#[trigger] found[i]).0) < limit
    &&& forall|i: int, j: int|
        0 <= i < j < found.len() ==> rank((#[trigger] found[i]).0) < rank((#[trigger] found[j]).0)
}

proof fn lemma_functions_in_order<C: PciConfig>(
    config: C,
    slot: int,
    function: int,
    count: int,
    found: Found,
)
    requires
        0 <= slot < SLOTS,
        0 <= function <= count <= 8,
        found_before(found, rank(slot_function(slot, 0)) + function),
    ensures
        functions_from(config, slot, function, count, found) matches Ok(all) ==> found_before(
            all,
            rank(slot_function(slot, 0)) + count,
        ),
    decreases count - function,
{
    if function < count {
        let address = slot_function(slot, function);
        assert(rank(address) == rank(slot_function(slot, 0)) + function);
        if let Ok(id) = config.register(address, REGISTER_ID) {
            if id % 0x10000 == 0xFFFF {
                lemma_functions_in_order(config, slot, function + 1, count, found);
            } else if let Ok(class) = config.register(address, REGISTER_CLASS) {
                lemma_functions_in_order(
                    config,
                    slot,
                    function + 1,
                    count,
                    found.push((address, class / 256)),
                );
            }
        }
    }
}

pub(crate) proof fn lemma_slots_in_order<C: PciConfig>(config: C, slot: int, found: Found)
    requires
        0 <= slot <= SLOTS,
        found_before(found, slot / 32 * 65536 + slot % 32 * 256),
    ensures
        slots_from(config, slot, found) matches Ok(all) ==> found_before(all, 0x100_0000),
    decreases SLOTS - slot,
{
    if slot < SLOTS {
        let next = (slot + 1) / 32 * 65536 + (slot + 1) % 32 * 256;
        assert(rank(slot_function(slot, 0)) == slot / 32 * 65536 + slot % 32 * 256);
        assert(rank(slot_function(slot, 0)) + 8 <= next);
        lemma_functions_in_order(config, slot, 0, 8, found);
        lemma_functions_in_order(config, slot, 0, 1, found);
        if let Ok(grown) = device_in(config, slot, found) {
            assert(found_before(grown, next));
            lemma_slots_in_order(config, slot + 1, grown);
        }
    }
}

proof fn lemma_controllers_in_order<C: PciConfig>(
    config: C,
    functions: Found,
    from: int,
    found: Seq<PciAddress>,
)
    requires
        0 <= from <= functions.len(),
        found_before(functions, 0x100_0000),
        in_order(found),
        forall|i: int, j: int|
            0 <= i < found.len() && from <= j < functions.len() ==> rank(#[trigger] found[i]) < rank(
                (#[trigger] functions[j]).0,
            ),
    ensures
        controllers_from(config, functions, from, found) matches Ok(all) ==> in_order(all),
    decreases functions.len() - from,
{
    if from < functions.len() {
        let (address, code) = functions[from];
        if code != XHCI_CLASS {
            lemma_controllers_in_order(config, functions, from + 1, found);
        } else if let Ok(header) = config.register(address, REGISTER_HEADER) {
            if header / 0x10000 % 128 != 0 {
                lemma_controllers_in_order(config, functions, from + 1, found);
            } else {
                let grown = found.push(address);
                assert forall|i: int, j: int|
                    0 <= i < grown.len() && from + 1 <= j < functions.len() implies rank(
                    #[trigger] grown[i],
                ) < rank((#[trigger] functions[j]).0) by {
                    if i == found.len() {
                        assert(rank(functions[from].0) < rank(functions[j].0));
                    }
                }
                assert forall|i: int, j: int| 0 <= i < j < grown.len() implies rank(
                    #[trigger] grown[i],
                ) < rank(#[trigger] grown[j]) by {
                    if j == found.len() {
                        assert(rank(found[i]) < rank(functions[from].0));
                    }
                }
                lemma_controllers_in_order(config, functions, from + 1, grown);
            }
        }
    }
}

/// Controllers are found in the order of their buses, devices and functions, each once.
pub proof fn law_controllers_are_in_order<C: PciConfig>(config: C)
    ensures
        all_controllers(config) matches Ok(found) ==> in_order(found),
{
    lemma_slots_in_order(config, 0, Seq::empty());
    if let Ok(functions) = all_functions(config) {
        lemma_controllers_in_order(config, functions, 0, Seq::empty());
    }
}

/// The controller of the chipset.
pub open spec fn is_pch(address: PciAddress) -> bool {
    address.bus == 0 && address.device == 0x14 && address.function == 0
}

/// The first controller of the chipset from `from` on.
pub open spec fn first_pch(candidates: Seq<PciAddress>, from: int) -> Option<PciAddress>
    decreases candidates.len() - from,
{
    if from >= candidates.len() {
        None
    } else if is_pch(candidates[from]) {
        Some(candidates[from])
    } else {
        first_pch(candidates, from + 1)
    }
}

/// The controller to use: that of the chipset, which the keyboard and the storage hang on, or
/// else the first.
pub open spec fn preferred(candidates: Seq<PciAddress>) -> Option<PciAddress> {
    if candidates.len() == 0 {
        None
    } else {
        match first_pch(candidates, 0) {
            Some(address) => Some(address),
            None => Some(candidates[0]),
        }
    }
}

/// The controller to use: that of the chipset, or else the first.
pub fn prefer_pch_primary(candidates: &[PciAddress]) -> (r: Option<PciAddress>)
    ensures
        r == preferred(candidates@),
{
    if candidates.len() == 0 {
        return None;
    }
    let mut i: usize = 0;
    while i < candidates.len()
        invariant
            i <= candidates@.len(),
            candidates@.len() > 0,
            first_pch(candidates@, 0) == first_pch(candidates@, i as int),
        decreases candidates@.len() - i,
    {
        let address = candidates[i];
        if address.bus == 0 && address.device == 0x14 && address.function == 0 {
            return Some(address);
        }
        i = i + 1;
    }
    Some(candidates[0])
}

/// The command with memory access and bus mastering off.
pub open spec fn quiet_command(command: u32) -> u32 {
    (command - command / 2 % 4 * 2) as u32
}

/// The command with memory access on and bus mastering off.
pub open spec fn enabled_command(command: u32) -> u32 {
    (quiet_command(command) + 2) as u32
}

/// Whether a base address register is 64 bits wide; none if it is not one for memory.
pub open spec fn bar_width(bar0: u32) -> Option<bool> {
    if bar0 % 2 != 0 {
        None
    } else if bar0 / 2 % 4 == 0 {
        Some(false)
    } else if bar0 / 2 % 4 == 2 {
        Some(true)
    } else {
        None
    }
}

/// The address in a base address register.
pub open spec fn bar_address(low: u32, high: u32, is_64: bool) -> u64 {
    ((low - low % 16) + if is_64 {
        high * 0x1_0000_0000
    } else {
        0
    }) as u64
}

/// What the registers ask for: `mask` is what they hold after all ones were written, and its
/// complement gives the size, which is a power of two. The address is a multiple of it.
pub open spec fn bar_of(base: u64, mask: u64, is_64: bool) -> Result<BarInfo, PciError> {
    let size = (0x1_0000_0000_0000_0000 - mask) as u64;
    if mask == 0 {
        Err(PciError::InvalidBar)
    } else if size & (size - 1) as u64 != 0 {
        Err(PciError::InvalidBar)
    } else if base == 0 || base % size != 0 {
        Err(PciError::InvalidBar)
    } else if base + size > u64::MAX {
        Err(PciError::InvalidBar)
    } else {
        Ok(BarInfo { base, size, is_64 })
    }
}

/// What an operation on the registers returns, and the registers afterwards.
pub struct ConfigStep<C, T> {
    pub result: Result<T, PciError>,
    pub config: C,
}

impl<C, T> ConfigStep<C, T> {
    /// Goes on with `next` where this succeeded.
    pub open spec fn and_then<U>(
        self,
        next: spec_fn(T, C) -> ConfigStep<C,
        U>,
    ) -> ConfigStep<C, U> {
        match self.result {
            Ok(value) => next(value, self.config),
            Err(e) => ConfigStep { result: Err(e), config: self.config },
        }
    }
}

/// Reads a register.
pub open spec fn read_step<C: PciConfig>(c: C, address: PciAddress, offset: u16) -> ConfigStep<
    C,
    u32,
> {
    ConfigStep { result: transported(c.register(address, offset)), config: c }
}

/// Writes a register.
pub open spec fn write_step<C: PciConfig>(
    c: C,
    address: PciAddress,
    offset: u16,
    value: u32,
) -> ConfigStep<C, ()> {
    ConfigStep {
        result: match c.written(address, offset, value).0 {
            Ok(()) => Ok(()),
            Err(_) => Err(PciError::Transport),
        },
        config: c.written(address, offset, value).1,
    }
}

/// Writes the base address registers: the second only where they are 64 bits wide.
pub open spec fn write_bars_step<C: PciConfig>(
    c: C,
    address: PciAddress,
    low: u32,
    high: u32,
    is_64: bool,
) -> ConfigStep<C, ()> {
    write_step(c, address, REGISTER_BAR0, low).and_then(
        |u: (), c: C|
            if is_64 {
                write_step(c, address, REGISTER_BAR1, high)
            } else {
                ConfigStep { result: Ok(()), config: c }
            },
    )
}

/// Reads the base address registers as a mask.
pub open spec fn read_mask_step<C: PciConfig>(c: C, address: PciAddress, is_64: bool) -> ConfigStep<
    C,
    u64,
> {
    read_step(c, address, REGISTER_BAR0).and_then(
        |low: u32, c: C|
            if is_64 {
                read_step(c, address, REGISTER_BAR1).and_then(
                    |high: u32, c: C|
                        ConfigStep { result: Ok(bar_address(low, high, true)), config: c },
                )
            } else {
                ConfigStep { result: Ok(bar_address(low, 0, false)), config: c }
            },
    )
}

/// Finds out the size of a memory range: switches memory access off, writes all ones into the
/// base address registers, reads what stays, and writes back what they held.
pub open spec fn size_step<C: PciConfig>(
    c: C,
    address: PciAddress,
    command: u32,
    bar0: u32,
    bar1: u32,
    is_64: bool,
) -> ConfigStep<C, u64> {
    write_step(c, address, REGISTER_COMMAND, quiet_command(command)).and_then(
        |u: (), c: C|
            write_bars_step(c, address, ALL_ONES, ALL_ONES, is_64).and_then(
                |u: (), c: C|
                    read_mask_step(c, address, is_64).and_then(
                        |mask: u64, c: C|
                            write_bars_step(c, address, bar0, bar1, is_64).and_then(
                                |u: (), c: C| ConfigStep { result: Ok(mask), config: c },
                            ),
                    ),
            ),
    )
}

/// Finds out what memory a controller's registers take. Memory access is switched on only where
/// the answer is sound; by then the base address registers hold what they held before.
pub open spec fn probe_step<C: PciConfig>(c: C, address: PciAddress) -> ConfigStep<C, BarInfo> {
    read_step(c, address, REGISTER_COMMAND).and_then(
        |command: u32, c: C|
            read_step(c, address, REGISTER_BAR0).and_then(
                |bar0: u32, c: C|
                    read_step(c, address, REGISTER_BAR1).and_then(
                        |bar1: u32, c: C|
                            match bar_width(bar0) {
                                None => ConfigStep {
                                    result: Err(PciError::InvalidBar),
                                    config: c,
                                },
                                Some(is_64) => size_step(
                                    c,
                                    address,
                                    command,
                                    bar0,
                                    bar1,
                                    is_64,
                                ).and_then(
                                    |mask: u64, c: C|
                                        match bar_of(bar_address(bar0, bar1, is_64), mask, is_64) {
                                            Err(e) => ConfigStep { result: Err(e), config: c },
                                            Ok(info) => write_step(
                                                c,
                                                address,
                                                REGISTER_COMMAND,
                                                enabled_command(command),
                                            ).and_then(
                                                |u: (), c: C|
                                                    ConfigStep { result: Ok(info), config: c },
                                            ),
                                        },
                                ),
                            },
                    ),
            ),
    )
}

/// Writes a register.
fn write_register<C: PciConfig>(config: &mut C, address: PciAddress, offset: u16, value: u32) -> (r:
    Result<(), PciError>)
    ensures
        (ConfigStep { result: r, config: *final(config) }) == write_step(
            *old(config),
            address,
            offset,
            value,
        ),
{
    match config.write_u32(address, offset, value) {
        Ok(()) => Ok(()),
        Err(_) => Err(PciError::Transport),
    }
}

/// Writes the base address registers.
fn write_bars<C: PciConfig>(
    config: &mut C,
    address: PciAddress,
    low: u32,
    high: u32,
    is_64: bool,
) -> (r: Result<(), PciError>)
    ensures
        (ConfigStep { result: r, config: *final(config) }) == write_bars_step(
            *old(config),
            address,
            low,
            high,
            is_64,
        ),
{
    write_register(config, address, REGISTER_BAR0, low)?;
    if is_64 {
        write_register(config, address, REGISTER_BAR1, high)?;
    }
    Ok(())
}

/// The address in a base address register.
fn join_bar(low: u32, high: u32, is_64: bool) -> (address: u64)
    ensures
        address == bar_address(low, high, is_64),
{
    let base: u64 = (low - low % 16) as u64;
    if is_64 {
        base + high as u64 * 0x1_0000_0000
    } else {
        base
    }
}

/// Finds out the size of a memory range.
fn size_bar<C: PciConfig>(
    config: &mut C,
    address: PciAddress,
    command: u32,
    bar0: u32,
    bar1: u32,
    is_64: bool,
) -> (r: Result<u64, PciError>)
    ensures
        (ConfigStep { result: r, config: *final(config) }) == size_step(
            *old(config),
            address,
            command,
            bar0,
            bar1,
            is_64,
        ),
{
    write_register(config, address, REGISTER_COMMAND, command - command / 2 % 4 * 2)?;
    write_bars(config, address, ALL_ONES, ALL_ONES, is_64)?;
    let low: u32 = read_register(config, address, REGISTER_BAR0)?;
    let high: u32 = if is_64 {
        read_register(config, address, REGISTER_BAR1)?
    } else {
        0
    };
    write_bars(config, address, bar0, bar1, is_64)?;
    Ok(join_bar(low, high, is_64))
}

/// Judges what the registers ask for.
fn judge_bar(base: u64, mask: u64, is_64: bool) -> (r: Result<BarInfo, PciError>)
    ensures
        r == bar_of(base, mask, is_64),
{
    if mask == 0 {
        return Err(PciError::InvalidBar);
    }
    let size: u64 = u64::MAX - mask + 1;
    if size & (size - 1) != 0 {
        return Err(PciError::InvalidBar);
    }
    if base == 0 || base % size != 0 {
        return Err(PciError::InvalidBar);
    }
    if base > u64::MAX - size {
        return Err(PciError::InvalidBar);
    }
    Ok(BarInfo { base, size, is_64 })
}

/// Finds out what memory a controller's registers take.
pub fn probe_xhci_bar<C: PciConfig>(config: &mut C, address: PciAddress) -> (r: Result<
    BarInfo,
    PciError,
>)
    ensures
        (ConfigStep { result: r, config: *final(config) }) == probe_step(*old(config), address),
{
    let command: u32 = read_register(config, address, REGISTER_COMMAND)?;
    let bar0: u32 = read_register(config, address, REGISTER_BAR0)?;
    let bar1: u32 = read_register(config, address, REGISTER_BAR1)?;
    if bar0 % 2 != 0 {
        return Err(PciError::InvalidBar);
    }
    let is_64 = if bar0 / 2 % 4 == 0 {
        false
    } else if bar0 / 2 % 4 == 2 {
        true
    } else {
        return Err(PciError::InvalidBar);
    };
    let mask: u64 = size_bar(config, address, command, bar0, bar1, is_64)?;
    let info = judge_bar(join_bar(bar0, bar1, is_64), mask, is_64)?;
    write_register(config, address, REGISTER_COMMAND, command - command / 2 % 4 * 2 + 2)?;
    Ok(info)
}

/// Memory that was found starts at a multiple of its size and ends inside the address space.
pub proof fn law_bar_is_aligned(base: u64, mask: u64, is_64: bool)
    ensures
        bar_of(base, mask, is_64) matches Ok(info) ==> {
            &&& info.size > 0
            &&& info.base == base && info.base % info.size == 0
            &&& info.base + info.size <= u64::MAX
            &&& info.size & (info.size - 1) as u64 == 0
        },
{
}

/// A write changes no other register of the function, and a register holds what was written,
/// unless all ones were, which it answers with its size.
pub open spec fn plain_registers<C: PciConfig>(address: PciAddress) -> bool {
    forall|c: C, offset: u16, value: u32, other: u16|
        #![trigger c.written(address, offset, value).1.register(address, other)]
        (other != offset || value != ALL_ONES) && c.written(address, offset, value).0 is Ok
            ==> c.written(address, offset, value).1.register(address, other) == (if other
            == offset {
            Ok(value)
        } else {
            c.register(address, other)
        })
}

/// After a probe that was not cut off by a failing register, the base address registers hold
/// what they held before, whether or not the answer was sound.
pub proof fn law_probe_restores_the_registers<C: PciConfig>(c: C, address: PciAddress)
    requires
        plain_registers::<C>(address),
        probe_step(c, address).result != Err::<BarInfo, PciError>(PciError::Transport),
        c.register(address, REGISTER_BAR0) matches Ok(bar0) && bar0 != ALL_ONES,
        c.register(address, REGISTER_BAR1) matches Ok(bar1) && bar1 != ALL_ONES,
    ensures
        probe_step(c, address).config.register(address, REGISTER_BAR0) == c.register(
            address,
            REGISTER_BAR0,
        ),
        probe_step(c, address).config.register(address, REGISTER_BAR1) == c.register(
            address,
            REGISTER_BAR1,
        ),
{
    let command = c.register(address, REGISTER_COMMAND)->Ok_0;
    let bar0 = c.register(address, REGISTER_BAR0)->Ok_0;
    let bar1 = c.register(address, REGISTER_BAR1)->Ok_0;
    if let Some(is_64) = bar_width(bar0) {
        let c1 = write_step(c, address, REGISTER_COMMAND, quiet_command(command));
        let c2 = write_bars_step(c1.config, address, ALL_ONES, ALL_ONES, is_64);
        let half = write_step(c1.config, address, REGISTER_BAR0, ALL_ONES);
        let c3 = write_bars_step(c2.config, address, bar0, bar1, is_64);
        let back = write_step(c2.config, address, REGISTER_BAR0, bar0);
        assert(c1.config.register(address, REGISTER_BAR1) == c.register(address, REGISTER_BAR1));
        assert(half.config.register(address, REGISTER_BAR1) == c1.config.register(
            address,
            REGISTER_BAR1,
        ));
        assert(back.config.register(address, REGISTER_BAR0) == Ok::<u32, PciError>(bar0));
        assert(back.config.register(address, REGISTER_BAR1) == c2.config.register(
            address,
            REGISTER_BAR1,
        ));
        let restored = size_step(c, address, command, bar0, bar1, is_64);
        assert(restored.result is Ok);
        assert(restored.config == c3.config);
        assert(c3.config.register(address, REGISTER_BAR0) == Ok::<u32, PciError>(bar0));
        assert(c3.config.register(address, REGISTER_BAR1) == Ok::<u32, PciError>(bar1));
        let last = write_step(c3.config, address, REGISTER_COMMAND, enabled_command(command));
        if last.result is Ok {
            assert(last.config.register(address, REGISTER_BAR0) == c3.config.register(
                address,
                REGISTER_BAR0,
            ));
            assert(last.config.register(address, REGISTER_BAR1) == c3.config.register(
                address,
                REGISTER_BAR1,
            ));
        }
    }
}

/// The number of extended capabilities that are looked at.
pub const MAX_EXTENDED: u32 = 32;

pub const CAPABILITY_LEGACY: u8 = 1;

pub const CAPABILITY_PROTOCOL: u8 = 2;

/// What the extended capabilities say.
pub struct Extended {
    pub legacy_owned: bool,
    pub usb2: (u8, u8),
    pub usb3: (u8, u8),
}

/// One extended capability, whatever its encoding.
pub struct Capability {
    pub id: u8,
    pub next: u8,
    pub owned: bool,
    pub major: u8,
    pub ports: (u8, u8),
}

/// What is known after one more capability. The first range of ports for each protocol counts.
pub open spec fn noted(so_far: Extended, capability: Capability) -> Extended {
    if capability.id == CAPABILITY_LEGACY {
        Extended { legacy_owned: so_far.legacy_owned || capability.owned, ..so_far }
    } else if capability.id == CAPABILITY_PROTOCOL && capability.major == 2 && so_far.usb2 == (
        0u8,
        0u8,
    ) {
        Extended { usb2: capability.ports, ..so_far }
    } else if capability.id == CAPABILITY_PROTOCOL && capability.major >= 3 && so_far.usb3 == (
        0u8,
        0u8,
    ) {
        Extended { usb3: capability.ports, ..so_far }
    } else {
        so_far
    }
}

/// Follows the chain of capabilities from `offset` on, at most `left` of them.
pub open spec fn chain(
    capability: spec_fn(int) -> Capability,
    offset: int,
    left: int,
    so_far: Extended,
) -> Extended
    decreases left,
{
    if left <= 0 {
        so_far
    } else {
        let here = capability(offset);
        if here.next == 0 {
            noted(so_far, here)
        } else {
            chain(capability, offset + 4 * here.next, left - 1, noted(so_far, here))
        }
    }
}

/// Nothing known.
pub open spec fn nothing() -> Extended {
    Extended { legacy_owned: false, usb2: (0, 0), usb3: (0, 0) }
}

/// A 32-bit number at an offset, counted from `base`; zero outside the bytes.
pub open spec fn word_at(base: int, ext: Seq<u8>, offset: int) -> u32 {
    if base <= offset && offset - base + 4 <= ext.len() {
        le32(ext, offset - base)
    } else {
        0
    }
}

/// Two bytes of a number, from the lowest on.
pub open spec fn two_bytes(word: u32) -> (u8, u8) {
    ((word % 256) as u8, (word / 256 % 256) as u8)
}

/// A capability whose first word holds the distance to the next in its lowest byte and the kind
/// in the second. The word behind it holds the protocol revision, or who owns the controller.
pub open spec fn compact_capability(ext: Seq<u8>) -> spec_fn(int) -> Capability {
    |offset: int|
        {
            let first = word_at(0, ext, offset);
            let second = word_at(0, ext, offset + 4);
            Capability {
                id: (first / 256 % 256) as u8,
                next: (first % 256) as u8,
                owned: second / 0x1_0000 % 2 == 1 || second / 0x100_0000 % 2 == 1,
                major: (second / 256 % 256) as u8,
                ports: two_bytes(word_at(0, ext, offset + 8)),
            }
        }
}

/// A capability whose first word holds the kind in its lowest byte, the distance to the next in
/// the second, and in the others the protocol revision, or who owns the controller.
pub open spec fn standard_capability(base: int, ext: Seq<u8>) -> spec_fn(int) -> Capability {
    |offset: int|
        {
            let first = word_at(base, ext, offset);
            Capability {
                id: (first % 256) as u8,
                next: (first / 256 % 256) as u8,
                owned: first / 0x1_0000 % 2 == 1 || first / 0x100_0000 % 2 == 1,
                major: (first / 0x100_0000) as u8,
                ports: two_bytes(word_at(base, ext, offset + 8)),
            }
        }
}

/// Two to the power `n`, for `n` below 16.
pub open spec fn power_of_two(n: int) -> int
    decreases n,
{
    if n <= 0 {
        1
    } else {
        2 * power_of_two(n - 1)
    }
}

/// What a controller says of itself: in its header, and in the extended capabilities that the
/// header leads to.
pub open spec fn caps_of(header: Seq<u8>, capability: spec_fn(int) -> Capability) -> XhciCaps {
    let structural = le32(header, 4);
    let parameters = le32(header, 16);
    let start = 4 * (parameters / 0x1_0000);
    let extended = if start == 0 {
        nothing()
    } else {
        chain(capability, start, MAX_EXTENDED as int, nothing())
    };
    XhciCaps {
        cap_length: header[0],
        interface_version: le16(header, 2),
        max_slots: (structural % 256) as u8,
        max_ports: (structural / 0x100_0000) as u8,
        context_64: parameters / 4 % 2 == 1,
        addr_64: parameters % 2 == 1,
        scratchpad_count: if parameters / 512 % 2 == 1 {
            power_of_two((parameters / 4096 % 16) as int) as u16
        } else {
            0
        },
        legacy_owned: extended.legacy_owned,
        usb2_bdf_range: extended.usb2,
        usb3_bdf_range: extended.usb3,
    }
}

/// A 32-bit number at an offset, counted from `ext_base`; zero outside the bytes.
fn read_ext(ext_base: u64, ext: &[u8], offset: u64) -> (word: u32)
    ensures
        word == word_at(ext_base as int, ext@, offset as int),
{
    if offset < ext_base || ext.len() < 4 || offset - ext_base > (ext.len() - 4) as u64 {
        return 0;
    }
    get_u32(ext, (offset - ext_base) as usize)
}

/// What the extended capabilities say, while they are read.
struct Notes {
    legacy_owned: bool,
    usb2: (u8, u8),
    usb3: (u8, u8),
}

impl Notes {
    spec fn view(self) -> Extended {
        Extended { legacy_owned: self.legacy_owned, usb2: self.usb2, usb3: self.usb3 }
    }

    fn new() -> (notes: Notes)
        ensures
            notes.view() == nothing(),
    {
        Notes { legacy_owned: false, usb2: (0, 0), usb3: (0, 0) }
    }

    /// Notes one more capability.
    fn note(&mut self, id: u8, owned: bool, major: u8, ports: (u8, u8), Ghost(next): Ghost<u8>)
        ensures
            final(self).view() == noted(
                old(self).view(),
                (Capability { id, next, owned, major, ports }),
            ),
    {
        if id == CAPABILITY_LEGACY {
            if owned {
                self.legacy_owned = true;
            }
        } else if id == CAPABILITY_PROTOCOL {
            if major == 2 && self.usb2.0 == 0 && self.usb2.1 == 0 {
                self.usb2 = ports;
            } else if major >= 3 && self.usb3.0 == 0 && self.usb3.1 == 0 {
                self.usb3 = ports;
            }
        }
    }
}

proof fn lemma_powers_grow(i: int, j: int)
    requires
        0 <= i <= j,
    ensures
        1 <= power_of_two(i) <= power_of_two(j),
    decreases j,
{
    if i < j {
        lemma_powers_grow(i, j - 1);
    } else if i > 0 {
        lemma_powers_grow(i - 1, j - 1);
    }
}

/// Two to the power `n`.
fn shift_one(n: u32) -> (power: u16)
    requires
        n < 16,
    ensures
        power == power_of_two(n as int),
{
    let mut power: u16 = 1;
    let mut i: u32 = 0;
    while i < n
        invariant
            i <= n < 16,
            power == power_of_two(i as int),
        decreases n - i,
    {
        proof {
            reveal_with_fuel(power_of_two, 17);
            lemma_powers_grow(i + 1, 15);
        }
        power = power * 2;
        i = i + 1;
    }
    power
}

/// Puts together what the header and the extended capabilities say.
fn assemble(header: &[u8; 32], notes: &Notes) -> (caps: XhciCaps)
    ensures
        forall|capability: spec_fn(int) -> Capability|
            #![trigger caps_of(header@, capability)]
            notes.view() == (if le32(header@, 16) / 0x1_0000 == 0 {
                nothing()
            } else {
                chain(
                    capability,
                    4 * (le32(header@, 16) / 0x1_0000),
                    MAX_EXTENDED as int,
                    nothing(),
                )
            }) ==> caps == caps_of(header@, capability),
{
    let structural: u32 = get_u32(header, 4);
    let parameters: u32 = get_u32(header, 16);
    XhciCaps {
        cap_length: header[0],
        interface_version: get_u16(header, 2),
        max_slots: (structural % 256) as u8,
        max_ports: (structural / 0x100_0000) as u8,
        context_64: parameters / 4 % 2 == 1,
        addr_64: parameters % 2 == 1,
        scratchpad_count: if parameters / 512 % 2 == 1 {
            shift_one(parameters / 4096 % 16)
        } else {
            0
        },
        legacy_owned: notes.legacy_owned,
        usb2_bdf_range: notes.usb2,
        usb3_bdf_range: notes.usb3,
    }
}

/// What a controller says of itself, where its extended capabilities are compact and `ext` starts
/// with the controller's registers.
pub fn decode_xhci_caps(header: &[u8; 32], ext: &[u8]) -> (caps: XhciCaps)
    ensures
        caps == caps_of(header@, compact_capability(ext@)),
{
    let ghost capability = compact_capability(ext@);
    let start: u32 = get_u32(header, 16) / 0x1_0000;
    let mut notes = Notes::new();
    if start != 0 {
        let ghost whole = chain(capability, 4 * start, MAX_EXTENDED as int, nothing());
        let mut offset: u64 = 4 * start as u64;
        let mut left: u32 = MAX_EXTENDED;
        let mut more = true;
        while more && left > 0
            invariant
                left <= MAX_EXTENDED,
                offset <= 0x40000 + 1020 * (MAX_EXTENDED - left),
                capability == compact_capability(ext@),
                whole == (if more {
                    chain(capability, offset as int, left as int, notes.view())
                } else {
                    notes.view()
                }),
            decreases left,
        {
            let first: u32 = read_ext(0, ext, offset);
            let second: u32 = read_ext(0, ext, offset + 4);
            let third: u32 = read_ext(0, ext, offset + 8);
            let next: u8 = (first % 256) as u8;
            let owned = second / 0x1_0000 % 2 == 1 || second / 0x100_0000 % 2 == 1;
            let ports = ((third % 256) as u8, (third / 256 % 256) as u8);
            notes.note(
                (first / 256 % 256) as u8,
                owned,
                (second / 256 % 256) as u8,
                ports,
                Ghost(next),
            );
            if next == 0 {
                more = false;
            }
            offset = offset + 4 * next as u64;
            left = left - 1;
        }
    }
    assemble(header, &notes)
}

/// What a controller says of itself, where its extended capabilities have the standard encoding
/// and `ext` starts `ext_base` bytes behind the controller's first register.
pub fn decode_xhci_caps_at(header: &[u8; 32], ext_base: u64, ext: &[u8]) -> (caps: XhciCaps)
    ensures
        caps == caps_of(header@, standard_capability(ext_base as int, ext@)),
{
    let ghost capability = standard_capability(ext_base as int, ext@);
    let start: u32 = get_u32(header, 16) / 0x1_0000;
    let mut notes = Notes::new();
    if start != 0 {
        let ghost whole = chain(capability, 4 * start, MAX_EXTENDED as int, nothing());
        let mut offset: u64 = 4 * start as u64;
        let mut left: u32 = MAX_EXTENDED;
        let mut more = true;
        while more && left > 0
            invariant
                left <= MAX_EXTENDED,
                offset <= 0x40000 + 1020 * (MAX_EXTENDED - left),
                capability == standard_capability(ext_base as int, ext@),
                whole == (if more {
                    chain(capability, offset as int, left as int, notes.view())
                } else {
                    notes.view()
                }),
            decreases left,
        {
            let first: u32 = read_ext(ext_base, ext, offset);
            let third: u32 = read_ext(ext_base, ext, offset + 8);
            let next: u8 = (first / 256 % 256) as u8;
            let owned = first / 0x1_0000 % 2 == 1 || first / 0x100_0000 % 2 == 1;
            let ports = ((third % 256) as u8, (third / 256 % 256) as u8);
            notes.note(
                (first % 256) as u8,
                owned,
                (first / 0x100_0000) as u8,
                ports,
                Ghost(next),
            );
            if next == 0 {
                more = false;
            }
            offset = offset + 4 * next as u64;
            left = left - 1;
        }
    }
    assemble(header, &notes)
}

} // verus!
