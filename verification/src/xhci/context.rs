//! Where a controller keeps what it knows of devices and endpoints.
use vstd::prelude::*;

verus! {

/// Bytes in a context.
pub open spec fn stride_of(is_64: bool) -> int {
    if is_64 {
        64
    } else {
        32
    }
}

/// Bytes in a context.
pub fn context_stride(is_64: bool) -> (stride: usize)
    ensures
        stride == stride_of(is_64),
{
    if is_64 {
        64
    } else {
        32
    }
}

/// Where the context with an index starts.
pub fn device_context_offset(dci: u8, is_64: bool) -> (offset: u32)
    ensures
        offset == dci * stride_of(is_64),
{
    let stride: u32 = context_stride(is_64) as u32;
    assert(dci * stride <= 255 * 64) by (nonlinear_arith)
        requires
            dci <= 255,
            stride <= 64,
    ;
    dci as u32 * stride
}

/// The index of an endpoint's context: the endpoint for control is 1, and each other number has
/// one index for output and the next for input.
pub open spec fn dci_of(endpoint_number: u8, dir_in: bool) -> int {
    if endpoint_number == 0 {
        1
    } else if dir_in {
        2 * endpoint_number + 1
    } else {
        2 * endpoint_number
    }
}

/// The index of an endpoint's context.
pub fn dci(endpoint_number: u8, dir_in: bool) -> (index: u8)
    requires
        endpoint_number < 128,
    ensures
        index == dci_of(endpoint_number, dir_in),
{
    if endpoint_number == 0 {
        1
    } else if dir_in {
        2 * endpoint_number + 1
    } else {
        2 * endpoint_number
    }
}

/// Whether a control endpoint may have packets of this size.
pub fn ep0_max_packet_valid(value: u16) -> (r: bool)
    ensures
        r == (value == 8 || value == 16 || value == 32 || value == 64),
{
    value == 8 || value == 16 || value == 32 || value == 64
}

/// The number of slots to enable: at most 32.
pub fn max_slots_en(max_slots: u8) -> (slots: u8)
    ensures
        slots == (if max_slots < 32 {
            max_slots
        } else {
            32
        }),
{
    if max_slots < 32 {
        max_slots
    } else {
        32
    }
}

/// Where a slot context keeps the speed.
pub fn slot_context_speed_field(speed: u8) -> (field: u32)
    ensures
        field == speed % 16 * 0x1_0000,
{
    (speed % 16) as u32 * 0x1_0000
}

/// Endpoints with different numbers or directions have different contexts, except that the
/// control endpoint has one for both directions.
pub proof fn law_endpoints_have_their_own_context(a: u8, x: bool, b: u8, y: bool)
    requires
        dci_of(a, x) == dci_of(b, y),
    ensures
        a == b,
        a != 0 ==> x == y,
{
}

} // verus!
