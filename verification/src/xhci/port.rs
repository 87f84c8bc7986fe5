//! The ports at which devices are plugged in.
use vstd::prelude::*;

use crate::xhci::{speed_of, UsbSpeed, XhciError, OP_PORT_BASE, OP_PORT_STRIDE};

verus! {

/// A device is connected.
pub const PORT_CCS: u32 = 0x1;

/// The port is enabled.
pub const PORT_PED: u32 = 0x2;

/// The port is being reset.
pub const PORT_PR: u32 = 0x10;

/// A reset has ended.
pub const PORT_PRSC: u32 = 0x20;

/// The port has power.
pub const PORT_PP: u32 = 0x200;

/// Where the register of a port is. Ports count from 1.
pub open spec fn port_place(op_base: u32, port: u8) -> int {
    op_base + OP_PORT_BASE + (port - 1) * OP_PORT_STRIDE
}

/// Where the register of a port is, if there is such a port.
pub open spec fn port_offset(op_base: u32, port: u8) -> Result<u32, XhciError> {
    if port == 0 || port_place(op_base, port) > u32::MAX {
        Err(XhciError::NoPorts)
    } else {
        Ok(port_place(op_base, port) as u32)
    }
}

/// Where the register of a port is.
pub fn portsc_offset(op_base: u32, port: u8) -> (r: Result<u32, XhciError>)
    ensures
        r == port_offset(op_base, port),
{
    if port == 0 {
        return Err(XhciError::NoPorts);
    }
    let relative: u32 = OP_PORT_BASE + (port as u32 - 1) * OP_PORT_STRIDE;
    match op_base.checked_add(relative) {
        Some(offset) => Ok(offset),
        None => Err(XhciError::NoPorts),
    }
}

/// The speed that a port register reports.
pub fn decode_speed(portsc: u32) -> (r: Result<UsbSpeed, XhciError>)
    ensures
        r == speed_of((portsc / 1024 % 16) as int),
{
    UsbSpeed::from_portsc(portsc)
}

/// A device is plugged in.
pub open spec fn is_connected(portsc: u32) -> bool {
    portsc % 2 == 1
}

/// A port is ready for use: a device is connected, the port is enabled, and either the reset is
/// over or its end was noted.
pub open spec fn is_ready(portsc: u32) -> bool {
    &&& portsc % 2 == 1
    &&& portsc / PORT_PED % 2 == 1
    &&& portsc / PORT_PR % 2 == 0 || portsc / PORT_PRSC % 2 == 1
}

/// The value that starts a reset.
pub open spec fn resetting(portsc: u32) -> u32 {
    if portsc / PORT_PR % 2 == 1 {
        portsc
    } else {
        (portsc + PORT_PR) as u32
    }
}

/// Whether a device is plugged in.
pub fn connected(portsc: u32) -> (r: bool)
    ensures
        r == is_connected(portsc),
{
    portsc % 2 == 1
}

/// Whether a port is ready for use.
pub fn ready(portsc: u32) -> (r: bool)
    ensures
        r == is_ready(portsc),
{
    portsc % 2 == 1 && portsc / PORT_PED % 2 == 1 && (portsc / PORT_PR % 2 == 0 || portsc
        / PORT_PRSC % 2 == 1)
}

/// The value that starts a reset.
pub fn with_reset(portsc: u32) -> (r: u32)
    ensures
        r == resetting(portsc),
{
    if portsc / PORT_PR % 2 == 1 {
        portsc
    } else {
        assert(portsc <= u32::MAX - PORT_PR);
        portsc + PORT_PR
    }
}

/// Different ports have different registers.
pub proof fn law_ports_have_their_own_register(op_base: u32, a: u8, b: u8)
    requires
        port_offset(op_base, a) is Ok,
        port_offset(op_base, a) == port_offset(op_base, b),
    ensures
        a == b,
{
}

} // verus!
