//! The language that a USB controller and its driver speak.
use vstd::prelude::*;

use crate::bytes::{
    get_u32, get_u64, le32, le64, lemma_le32_of, lemma_le64_of, put_bytes, put_u32, put_u64,
    to_le32, to_le64,
};
use crate::dma::{DmaAllocation, DmaError};
use crate::mmio::MapError;

pub mod address;
pub mod asking;
pub mod bringup;
pub mod configure;
pub mod context;
pub mod controller;
pub mod events;
pub mod naming;
pub mod plan;
pub mod port;
pub mod probe;
pub mod ring;
pub mod startup;
pub mod transfer;
pub mod wait;
pub mod wire;

verus! {

#[derive(Clone, Copy, Debug, PartialEq, Eq, Structural)]
pub enum XhciError {
    UnsupportedPlatform,
    UnsupportedEvent,
    InvalidRegister,
    Mapping(MapError),
    Dma(DmaError),
    Timeout,
    Stalled,
    TransferFailed(u8),
    NoDevice,
    InvalidSlot,
    NoPorts,
    Allocation,
}

/// The tick at which waiting ends.
pub struct Deadline(pub u64);

/// Tells the time in ticks.
pub trait Clock {
    fn now_ticks(&self) -> u64;

    fn ticks_per_second(&self) -> u64;
}

/// The registers of a device. What a read gives, and what a write does, is up to the device.
pub trait Mmio {
    fn read32(&self, offset: u32) -> Result<u32, XhciError>;

    fn write32(&mut self, offset: u32, value: u32) -> Result<(), XhciError>;
}

#[derive(Clone, Copy, Debug, PartialEq, Eq, Structural)]
pub enum UsbSpeed {
    Full,
    Low,
    High,
    Super,
    SuperPlus,
}

/// The speed that a number stands for.
pub open spec fn speed_of(psiv: int) -> Result<UsbSpeed, XhciError> {
    if psiv == 1 {
        Ok(UsbSpeed::Full)
    } else if psiv == 2 {
        Ok(UsbSpeed::Low)
    } else if psiv == 3 {
        Ok(UsbSpeed::High)
    } else if psiv == 4 {
        Ok(UsbSpeed::Super)
    } else if psiv == 5 {
        Ok(UsbSpeed::SuperPlus)
    } else {
        Err(XhciError::UnsupportedPlatform)
    }
}

/// The number that stands for a speed.
pub open spec fn psiv_of(speed: UsbSpeed) -> u8 {
    match speed {
        UsbSpeed::Full => 1,
        UsbSpeed::Low => 2,
        UsbSpeed::High => 3,
        UsbSpeed::Super => 4,
        UsbSpeed::SuperPlus => 5,
    }
}

/// The size of the first packets of a control endpoint.
pub open spec fn first_packet(speed: UsbSpeed) -> u16 {
    match speed {
        UsbSpeed::Full => 8,
        UsbSpeed::Low => 8,
        UsbSpeed::High => 64,
        UsbSpeed::Super => 512,
        UsbSpeed::SuperPlus => 512,
    }
}

impl UsbSpeed {
    /// The speed that a port register reports in bits 10 to 13.
    pub fn from_portsc(value: u32) -> (r: Result<UsbSpeed, XhciError>)
        ensures
            r == speed_of((value / 1024 % 16) as int),
    {
        let psiv: u32 = value / 1024 % 16;
        if psiv == 1 {
            Ok(UsbSpeed::Full)
        } else if psiv == 2 {
            Ok(UsbSpeed::Low)
        } else if psiv == 3 {
            Ok(UsbSpeed::High)
        } else if psiv == 4 {
            Ok(UsbSpeed::Super)
        } else if psiv == 5 {
            Ok(UsbSpeed::SuperPlus)
        } else {
            Err(XhciError::UnsupportedPlatform)
        }
    }

    /// The number that stands for the speed.
    pub fn psiv(self) -> (psiv: u8)
        ensures
            psiv == psiv_of(self),
    {
        match self {
            UsbSpeed::Full => 1,
            UsbSpeed::Low => 2,
            UsbSpeed::High => 3,
            UsbSpeed::Super => 4,
            UsbSpeed::SuperPlus => 5,
        }
    }

    /// The size of the first packets of a control endpoint: 8 bytes at low and full speed, which
    /// the device's descriptor may raise later, 64 at high speed and 512 above.
    pub fn ep0_initial_max_packet(self) -> (size: u16)
        ensures
            size == first_packet(self),
    {
        match self {
            UsbSpeed::Full => 8,
            UsbSpeed::Low => 8,
            UsbSpeed::High => 64,
            UsbSpeed::Super => 512,
            UsbSpeed::SuperPlus => 512,
        }
    }
}

/// A port register that reports a speed is read as that speed.
pub proof fn law_speeds_are_read_back(speed: UsbSpeed)
    ensures
        speed_of(psiv_of(speed) as int) == Ok::<UsbSpeed, XhciError>(speed),
{
}

#[derive(Clone, Copy, Debug, PartialEq, Eq, Structural)]
pub struct DeviceHandle {
    pub slot_id: u8,
    pub root_port: u8,
    pub speed: UsbSpeed,
}

#[derive(Clone, Copy, Debug, PartialEq, Eq, Structural)]
pub struct EndpointConfig {
    pub address: u8,
    pub transfer_type: u8,
    pub max_packet_size: u16,
    pub interval: u8,
    pub max_burst: u8,
}

#[derive(Clone, Copy, Debug, PartialEq, Eq, Structural)]
pub enum ControlDirection {
    In,
    Out,
    NoData,
}

#[derive(Clone, Copy, Debug, PartialEq, Eq, Structural)]
pub enum BulkDirection {
    In,
    Out,
}

/// The data of a control transfer, in memory that the controller can reach.
pub struct ControlData<'a> {
    pub direction: ControlDirection,
    pub buffer: &'a mut [u8],
    pub device_address: u64,
}

/// The data of a bulk transfer, in memory that the controller can reach.
pub struct BulkData<'a> {
    pub direction: BulkDirection,
    pub buffer: &'a mut [u8],
    pub device_address: u64,
}

/// The most bytes in a control transfer.
pub const MAX_CONTROL_BYTES: usize = 4096;

/// The most bytes in a bulk transfer.
pub const MAX_BULK_BYTES: usize = 65535;

/// Where the controller sees `len` bytes at an address of the processor: they must be part of the
/// memory that was given out.
pub open spec fn device_view(start: u64, len: nat, allocation: DmaAllocation) -> Result<
    u64,
    XhciError,
> {
    let offset = start - allocation.cpu_address;
    if len == 0 || offset < 0 || offset + len > allocation.len || allocation.device_address + offset
        > u64::MAX {
        Err(XhciError::TransferFailed(0))
    } else {
        Ok((allocation.device_address + offset) as u64)
    }
}

/// Where the controller sees the data of a control transfer.
pub open spec fn control_view(start: u64, len: nat, allocation: DmaAllocation) -> Result<
    u64,
    XhciError,
> {
    if len > MAX_CONTROL_BYTES {
        Err(XhciError::TransferFailed(0))
    } else {
        device_view(start, len, allocation)
    }
}

/// Where the controller sees the data of a bulk transfer.
pub open spec fn bulk_view(start: u64, len: nat, allocation: DmaAllocation) -> Result<
    u64,
    XhciError,
> {
    if len > MAX_BULK_BYTES {
        Err(XhciError::TransferFailed(0))
    } else {
        device_view(start, len, allocation)
    }
}

/// The address of a slice, by `<[u8]>::as_ptr`. Where a slice lies is not known beforehand, so
/// nothing is said of the result.
#[verifier::external_body]
fn slice_address(buffer: &[u8]) -> (address: u64) {
    buffer.as_ptr() as usize as u64
}

/// Where the controller sees `len` bytes at an address of the processor.
pub fn dma_address_for(start: u64, len: usize, allocation: &DmaAllocation) -> (r: Result<
    u64,
    XhciError,
>)
    ensures
        r == device_view(start, len as nat, *allocation),
{
    if len == 0 || start < allocation.cpu_address {
        return Err(XhciError::TransferFailed(0));
    }
    let offset: u64 = start - allocation.cpu_address;
    if len > allocation.len || offset > (allocation.len - len) as u64 {
        return Err(XhciError::TransferFailed(0));
    }
    match allocation.device_address.checked_add(offset) {
        Some(address) => Ok(address),
        None => Err(XhciError::TransferFailed(0)),
    }
}

impl<'a> ControlData<'a> {
    /// The data of a control transfer. Fails unless the buffer, wherever it lies, is part of the
    /// memory that was given out and short enough.
    pub fn new(
        direction: ControlDirection,
        buffer: &'a mut [u8],
        allocation: &'a DmaAllocation,
    ) -> (r: Result<ControlData<'a>, XhciError>)
        ensures
            exists|start: u64|
                #![trigger control_view(start, old(buffer)@.len(), *allocation)]
                match control_view(start, old(buffer)@.len(), *allocation) {
                    Err(e) => r is Err && r->Err_0 == e,
                    Ok(address) => r is Ok && r->Ok_0.direction == direction
                        && r->Ok_0.device_address == address && r->Ok_0.buffer@ == old(buffer)@,
                },
    {
        let start: u64 = slice_address(buffer);
        ControlData::at(direction, buffer, start, allocation)
    }

    /// The data of a control transfer in a buffer that starts at an address of the processor.
    pub fn at(
        direction: ControlDirection,
        buffer: &'a mut [u8],
        start: u64,
        allocation: &'a DmaAllocation,
    ) -> (r: Result<ControlData<'a>, XhciError>)
        ensures
            match control_view(start, old(buffer)@.len(), *allocation) {
                Err(e) => r is Err && r->Err_0 == e,
                Ok(address) => r is Ok && r->Ok_0.direction == direction && r->Ok_0.device_address
                    == address && r->Ok_0.buffer@ == old(buffer)@,
            },
    {
        let len: usize = buffer.len();
        if len > MAX_CONTROL_BYTES {
            return Err(XhciError::TransferFailed(0));
        }
        let device_address: u64 = dma_address_for(start, len, allocation)?;
        Ok(ControlData { direction, buffer, device_address })
    }
}

impl<'a> BulkData<'a> {
    /// The data of a bulk transfer. Fails unless the buffer, wherever it lies, is part of the
    /// memory that was given out and short enough.
    pub fn new(
        direction: BulkDirection,
        buffer: &'a mut [u8],
        allocation: &'a DmaAllocation,
    ) -> (r: Result<BulkData<'a>, XhciError>)
        ensures
            exists|start: u64|
                #![trigger bulk_view(start, old(buffer)@.len(), *allocation)]
                match bulk_view(start, old(buffer)@.len(), *allocation) {
                    Err(e) => r is Err && r->Err_0 == e,
                    Ok(address) => r is Ok && r->Ok_0.direction == direction
                        && r->Ok_0.device_address == address && r->Ok_0.buffer@ == old(buffer)@,
                },
    {
        let start: u64 = slice_address(buffer);
        BulkData::at(direction, buffer, start, allocation)
    }

    /// The data of a bulk transfer in a buffer that starts at an address of the processor.
    pub fn at(
        direction: BulkDirection,
        buffer: &'a mut [u8],
        start: u64,
        allocation: &'a DmaAllocation,
    ) -> (r: Result<BulkData<'a>, XhciError>)
        ensures
            match bulk_view(start, old(buffer)@.len(), *allocation) {
                Err(e) => r is Err && r->Err_0 == e,
                Ok(address) => r is Ok && r->Ok_0.direction == direction && r->Ok_0.device_address
                    == address && r->Ok_0.buffer@ == old(buffer)@,
            },
    {
        let len: usize = buffer.len();
        if len > MAX_BULK_BYTES {
            return Err(XhciError::TransferFailed(0));
        }
        let device_address: u64 = dma_address_for(start, len, allocation)?;
        Ok(BulkData { direction, buffer, device_address })
    }
}

/// All bytes that a transfer touches belong to the memory that was given out for it.
pub proof fn law_transfers_stay_in_their_memory(start: u64, len: nat, allocation: DmaAllocation)
    ensures
        device_view(start, len, allocation) matches Ok(address) ==> {
            &&& allocation.device_address <= address
            &&& address + len <= allocation.device_address + allocation.len
            &&& address - allocation.device_address == start - allocation.cpu_address
        },
{
}

pub const TRB_BYTES: usize = 16;

pub const RING_TRBS: usize = 64;

pub const CAP_CAPLENGTH: u32 = 0;

pub const CAP_HCIVERSION: u32 = 2;

pub const CAP_HCSP1: u32 = 4;

pub const CAP_HCC1: u32 = 16;

pub const CAP_DBOFF: u32 = 20;

pub const CAP_RTSOFF: u32 = 24;

pub const OP_USBCMD: u32 = 0;

pub const OP_USBSTS: u32 = 4;

pub const OP_PAGESIZE: u32 = 8;

pub const OP_CRCR: u32 = 24;

pub const OP_DCBAAP: u32 = 48;

pub const OP_CONFIG: u32 = 56;

pub const OP_PORT_BASE: u32 = 0x400;

pub const OP_PORT_STRIDE: u32 = 0x10;

pub const RT_IMAN: u32 = 32;

pub const RT_ERSTSZ: u32 = 40;

pub const RT_ERSTBA: u32 = 48;

pub const RT_ERDP: u32 = 56;

pub const TYPE_NORMAL: u32 = 1;

pub const TYPE_SETUP: u32 = 2;

pub const TYPE_DATA: u32 = 3;

pub const TYPE_STATUS: u32 = 4;

pub const TYPE_LINK: u32 = 6;

pub const TYPE_ENABLE_SLOT: u32 = 9;

pub const TYPE_ADDRESS_DEVICE: u32 = 11;

pub const TYPE_CONFIGURE: u32 = 12;

pub const TYPE_RESET_ENDPOINT: u32 = 14;

pub const TYPE_NOOP: u32 = 23;

pub const TYPE_TRANSFER_EVENT: u32 = 32;

pub const TYPE_COMMAND_EVENT: u32 = 33;

pub const TYPE_PORT_EVENT: u32 = 34;

/// The request goes on in the next entry.
pub const FLAG_CHAIN: u32 = 0x10;

/// The controller reports when the request is done.
pub const FLAG_IOC: u32 = 0x20;

/// The mark of new requests changes behind a link.
pub const FLAG_TOGGLE: u32 = 2;

/// The data goes to the host, or a status word is asked for.
pub const FLAG_IN: u32 = 0x1_0000;

/// A setup request has eight bytes of its own data.
pub const SETUP_BYTES: u32 = 0x8_0000;

/// The three parts of an entry.
pub open spec fn trb_of(parameter: u64, status: u32, control: u32) -> Seq<u8> {
    to_le64(parameter) + to_le32(status) + to_le32(control)
}

/// A flag, or nothing.
pub open spec fn flag(set: bool, value: u32) -> int {
    if set {
        value as int
    } else {
        0
    }
}

/// The last part of an entry: its type, the mark of new entries, and flags.
pub open spec fn control_word(trb_type: u32, cycle: u8, flags: int) -> u32 {
    (trb_type * 1024 + cycle % 2 + flags) as u32
}

/// An entry's type.
pub open spec fn type_of(trb: Seq<u8>) -> u32 {
    (le32(trb, 12) / 1024 % 64) as u32
}

/// An entry that links back.
pub open spec fn link_trb(base: u64, toggle: bool, cycle: u8) -> Seq<u8> {
    trb_of((base - base % 16) as u64, 0, control_word(TYPE_LINK, cycle, flag(toggle, FLAG_TOGGLE)))
}

/// Puts an entry together.
pub(crate) fn put_trb(parameter: u64, status: u32, control: u32) -> (trb: [u8; 16])
    ensures
        trb@ == trb_of(parameter, status, control),
{
    let mut trb = [0u8; 16];
    put_u64(&mut trb, 0, parameter);
    put_u32(&mut trb, 8, status);
    put_u32(&mut trb, 12, control);
    assert(trb@ =~= trb_of(parameter, status, control));
    trb
}

/// The last part of an entry without flags.
pub(crate) fn trb_control(trb_type: u32, cycle: u8) -> (control: u32)
    requires
        trb_type < 64,
    ensures
        control == control_word(trb_type, cycle, 0),
        control < 0x1_0000,
{
    trb_type * 1024 + (cycle % 2) as u32
}

/// The request that carries the setup packet of a control transfer.
pub fn encode_setup_stage(setup: [u8; 8], length: u16) -> (trb: [u8; 16])
    ensures
        trb@ == setup@ + to_le32(length as u32) + to_le32(
            control_word(TYPE_SETUP, 0, SETUP_BYTES as int),
        ),
{
    let mut trb = put_trb(0, length as u32, trb_control(TYPE_SETUP, 0) + SETUP_BYTES);
    put_bytes(&mut trb, 0, &setup);
    assert(trb@ =~= setup@ + to_le32(length as u32) + to_le32(
        control_word(TYPE_SETUP, 0, SETUP_BYTES as int),
    ));
    trb
}

/// The request that carries the data of a control transfer.
pub fn encode_data_stage(phys: u64, len: usize, dir_in: bool, chain: bool) -> (trb: [u8; 16])
    ensures
        trb@ == trb_of(
            phys,
            (len % 0x2_0000) as u32,
            control_word(TYPE_DATA, 0, flag(dir_in, FLAG_IN) + flag(chain, FLAG_CHAIN)),
        ),
{
    let mut control: u32 = trb_control(TYPE_DATA, 0);
    if dir_in {
        control = control + FLAG_IN;
    }
    if chain {
        control = control + FLAG_CHAIN;
    }
    put_trb(phys, (len % 0x2_0000) as u32, control)
}

/// The request that ends a control transfer. It is chained; a caller that ends a transfer with it
/// takes the flag away.
pub fn encode_status_stage(dir_in: bool, cycle: u8) -> (trb: [u8; 16])
    ensures
        trb@ == trb_of(
            0,
            flag(!dir_in, FLAG_IN) as u32,
            control_word(TYPE_STATUS, cycle, FLAG_CHAIN as int),
        ),
{
    let status: u32 = if dir_in {
        0
    } else {
        FLAG_IN
    };
    put_trb(0, status, trb_control(TYPE_STATUS, cycle) + FLAG_CHAIN)
}

/// The request that carries data of any other transfer.
pub fn encode_normal(phys: u64, len: usize, chain: bool, ioc: bool, cycle: u8) -> (trb: [u8; 16])
    ensures
        trb@ == trb_of(
            phys,
            (len % 0x2_0000) as u32,
            control_word(TYPE_NORMAL, cycle, flag(chain, FLAG_CHAIN) + flag(ioc, FLAG_IOC)),
        ),
{
    let mut control: u32 = trb_control(TYPE_NORMAL, cycle);
    if chain {
        control = control + FLAG_CHAIN;
    }
    if ioc {
        control = control + FLAG_IOC;
    }
    put_trb(phys, (len % 0x2_0000) as u32, control)
}

/// The entry that links back to the first of a ring.
pub fn encode_link(base: u64, toggle: bool, cycle: u8) -> (trb: [u8; 16])
    ensures
        trb@ == link_trb(base, toggle, cycle),
{
    let mut control: u32 = trb_control(TYPE_LINK, cycle);
    if toggle {
        control = control + FLAG_TOGGLE;
    }
    put_trb(base - base % 16, 0, control)
}

/// The command that asks for a slot for a device.
pub fn encode_enable_slot(cycle: u8) -> (trb: [u8; 16])
    ensures
        trb@ == trb_of(0, 0, control_word(TYPE_ENABLE_SLOT, cycle, 0)),
{
    put_trb(0, 0, trb_control(TYPE_ENABLE_SLOT, cycle))
}

/// The command that gives a device its address.
pub fn encode_address_device(input_phys: u64, slot: u8, cycle: u8) -> (trb: [u8; 16])
    ensures
        trb@ == trb_of(
            input_phys,
            0,
            control_word(TYPE_ADDRESS_DEVICE, cycle, slot * 0x100_0000),
        ),
{
    put_trb(input_phys, 0, trb_control(TYPE_ADDRESS_DEVICE, cycle) + slot as u32 * 0x100_0000)
}

/// The command that sets up a device's endpoints.
pub fn encode_config_ep(input_phys: u64, slot: u8, cycle: u8) -> (trb: [u8; 16])
    ensures
        trb@ == trb_of(input_phys, 0, control_word(TYPE_CONFIGURE, cycle, slot * 0x100_0000)),
{
    put_trb(input_phys, 0, trb_control(TYPE_CONFIGURE, cycle) + slot as u32 * 0x100_0000)
}

/// The command that resets an endpoint.
pub fn encode_reset_ep(slot: u8, dci: u8, cycle: u8) -> (trb: [u8; 16])
    ensures
        trb@ == trb_of(
            0,
            0,
            control_word(TYPE_RESET_ENDPOINT, cycle, slot * 0x100_0000 + dci * 0x1_0000),
        ),
{
    put_trb(
        0,
        0,
        trb_control(TYPE_RESET_ENDPOINT, cycle) + slot as u32 * 0x100_0000 + dci as u32 * 0x1_0000,
    )
}

/// The command that does nothing.
pub fn encode_noop_cmd(cycle: u8) -> (trb: [u8; 16])
    ensures
        trb@ == trb_of(0, 0, control_word(TYPE_NOOP, cycle, 0)),
{
    put_trb(0, 0, trb_control(TYPE_NOOP, cycle))
}

/// An entry has the type that it was made with.
pub proof fn law_an_entry_keeps_its_type(
    parameter: u64,
    status: u32,
    trb_type: u32,
    cycle: u8,
    low: int,
    high: int,
)
    requires
        trb_type < 64,
        0 <= low < 1024,
        low + cycle % 2 < 1024,
        0 <= high < 0x1_0000,
    ensures
        type_of(trb_of(parameter, status, control_word(trb_type, cycle, low + high * 0x1_0000)))
            == trb_type,
        le64(trb_of(parameter, status, control_word(trb_type, cycle, low + high * 0x1_0000)), 0)
            == parameter,
        le32(trb_of(parameter, status, control_word(trb_type, cycle, low + high * 0x1_0000)), 8)
            == status,
{
    let control = control_word(trb_type, cycle, low + high * 0x1_0000);
    lemma_parts(parameter, status, control);
    lemma_type_digits(trb_type as int, low + cycle % 2, high);
    assert(control == trb_type * 1024 + (low + cycle % 2) + high * 0x1_0000);
}

/// The type stands between what is smaller and what is larger.
proof fn lemma_type_digits(trb_type: int, rest: int, high: int)
    requires
        0 <= trb_type < 64,
        0 <= rest < 1024,
        0 <= high < 0x1_0000,
    ensures
        0 <= trb_type * 1024 + rest + high * 0x1_0000 <= u32::MAX,
        (trb_type * 1024 + rest + high * 0x1_0000) / 1024 % 64 == trb_type,
{
}

/// The parts of an entry are read back.
proof fn lemma_parts(parameter: u64, status: u32, control: u32)
    ensures
        le64(trb_of(parameter, status, control), 0) == parameter,
        le32(trb_of(parameter, status, control), 8) == status,
        le32(trb_of(parameter, status, control), 12) == control,
{
    let p = to_le64(parameter);
    let s = to_le32(status);
    let c = to_le32(control);
    let trb = trb_of(parameter, status, control);
    assert(trb == p + s + c);
    assert(trb.subrange(0, 8) =~= p);
    lemma_le64_of(trb, 0, parameter);
    assert(trb[8] == s[0] && trb[9] == s[1] && trb[10] == s[2] && trb[11] == s[3]);
    lemma_le32_of(trb, 8, status);
    assert(trb[12] == c[0] && trb[13] == c[1] && trb[14] == c[2] && trb[15] == c[3]);
    lemma_le32_of(trb, 12, control);
}

#[derive(Clone, Copy, Debug, PartialEq, Eq, Structural)]
pub struct TransferEvent {
    pub pointer: u64,
    pub length: u32,
    pub code: u8,
    pub slot: u8,
    pub endpoint: u8,
}

#[derive(Clone, Copy, Debug, PartialEq, Eq, Structural)]
pub struct CommandComplete {
    pub pointer: u64,
    pub code: u8,
    pub slot: u8,
}

#[derive(Clone, Copy, Debug, PartialEq, Eq, Structural)]
pub struct PortChange {
    pub port: u8,
    pub code: u8,
}

/// Whether bytes are an entry of a type.
pub open spec fn is_entry(trb: Seq<u8>, trb_type: u32) -> bool {
    trb.len() == TRB_BYTES && type_of(trb) == trb_type
}

/// The transfer event that an entry reports.
pub open spec fn transfer_event(trb: Seq<u8>) -> TransferEvent {
    TransferEvent {
        pointer: le64(trb, 0),
        length: (le32(trb, 8) % 0x100_0000) as u32,
        code: (le32(trb, 8) / 0x100_0000) as u8,
        slot: (le32(trb, 12) / 0x100_0000) as u8,
        endpoint: (le32(trb, 12) / 0x1_0000 % 32) as u8,
    }
}

/// The completion that an entry reports.
pub open spec fn command_event(trb: Seq<u8>) -> CommandComplete {
    CommandComplete {
        pointer: le64(trb, 0),
        code: (le32(trb, 8) / 0x100_0000) as u8,
        slot: (le32(trb, 12) / 0x100_0000) as u8,
    }
}

/// The port change that an entry reports.
pub open spec fn port_event(trb: Seq<u8>) -> PortChange {
    PortChange {
        port: (le32(trb, 0) / 0x100_0000) as u8,
        code: (le32(trb, 8) / 0x100_0000) as u8,
    }
}

/// The type of an entry.
pub(crate) fn trb_type_of(trb: &[u8]) -> (r: Result<u32, XhciError>)
    ensures
        r == (if trb@.len() >= 16 {
            Ok(type_of(trb@))
        } else {
            Err(XhciError::UnsupportedEvent)
        }),
{
    if trb.len() < 16 {
        return Err(XhciError::UnsupportedEvent);
    }
    Ok(get_u32(trb, 12) / 1024 % 64)
}

/// The transfer event that an entry reports.
pub fn decode_transfer_event(trb: &[u8]) -> (r: Result<TransferEvent, XhciError>)
    ensures
        r == (if is_entry(trb@, TYPE_TRANSFER_EVENT) {
            Ok(transfer_event(trb@))
        } else {
            Err(XhciError::UnsupportedEvent)
        }),
{
    if trb.len() != 16 || trb_type_of(trb)? != TYPE_TRANSFER_EVENT {
        return Err(XhciError::UnsupportedEvent);
    }
    let status: u32 = get_u32(trb, 8);
    let control: u32 = get_u32(trb, 12);
    Ok(
        TransferEvent {
            pointer: get_u64(trb, 0),
            length: status % 0x100_0000,
            code: (status / 0x100_0000) as u8,
            slot: (control / 0x100_0000) as u8,
            endpoint: (control / 0x1_0000 % 32) as u8,
        },
    )
}

/// The completion that an entry reports.
pub fn decode_cmd_complete(trb: &[u8]) -> (r: Result<CommandComplete, XhciError>)
    ensures
        r == (if is_entry(trb@, TYPE_COMMAND_EVENT) {
            Ok(command_event(trb@))
        } else {
            Err(XhciError::UnsupportedEvent)
        }),
{
    if trb.len() != 16 || trb_type_of(trb)? != TYPE_COMMAND_EVENT {
        return Err(XhciError::UnsupportedEvent);
    }
    Ok(
        CommandComplete {
            pointer: get_u64(trb, 0),
            code: (get_u32(trb, 8) / 0x100_0000) as u8,
            slot: (get_u32(trb, 12) / 0x100_0000) as u8,
        },
    )
}

/// The port change that an entry reports.
pub fn decode_port_change(trb: &[u8]) -> (r: Result<PortChange, XhciError>)
    ensures
        r == (if is_entry(trb@, TYPE_PORT_EVENT) {
            Ok(port_event(trb@))
        } else {
            Err(XhciError::UnsupportedEvent)
        }),
{
    if trb.len() != 16 || trb_type_of(trb)? != TYPE_PORT_EVENT {
        return Err(XhciError::UnsupportedEvent);
    }
    Ok(
        PortChange {
            port: (get_u32(trb, 0) / 0x100_0000) as u8,
            code: (get_u32(trb, 8) / 0x100_0000) as u8,
        },
    )
}

/// What a completion code means.
pub open spec fn completion(code: u8) -> Result<(), XhciError> {
    if code == 1 {
        Ok(())
    } else if code == 6 {
        Err(XhciError::Stalled)
    } else {
        Err(XhciError::TransferFailed(code))
    }
}

/// What a completion code means.
pub fn completion_to_error(code: u8) -> (r: Result<(), XhciError>)
    ensures
        r == completion(code),
{
    match code {
        1 => Ok(()),
        6 => Err(XhciError::Stalled),
        other => Err(XhciError::TransferFailed(other)),
    }
}

} // verus!
