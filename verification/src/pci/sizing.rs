//! What the registers of a function say: where they lie, what memory they ask for, and what a
//! controller can do.
use vstd::prelude::*;

use super::{
    bar_address, bar_of, bar_width, caps_of, chain, enabled_command, noted, nothing, power_of_two,
    probe_step, quiet_command, read_mask_step, register_place, size_step, write_bars_step, BarInfo,
    Capability, Extended, McfgRegion, PciAddress, PciConfig, PciError,
};

verus! {

/// The registers of a region lie behind its base: one word after the other, 4096 bytes for each
/// function, eight functions for each device, 32 devices for each bus.
pub proof fn law_registers_lie_in_order(region: McfgRegion, address: PciAddress, offset: u16)
    requires
        address.device < 32,
        address.function < 8,
        offset < 4096,
    ensures
        ({
            let within = register_place(region, address, offset) - region.base;
            &&& within % 4096 == offset
            &&& within / 4096 % 8 == address.function
            &&& within / 32768 % 32 == address.device
            &&& within / 1048576 == address.bus
        }),
{
}

/// While a range is sized, the function neither answers in memory nor reaches it: bits 1 and 2 of
/// its command are clear, and the others as they were. Afterwards bit 1 is set.
pub proof fn law_commands_change_two_bits(command: u32)
    ensures
        quiet_command(command) & 6 == 0,
        quiet_command(command) | 6 == command | 6,
        enabled_command(command) & 6 == 2,
        enabled_command(command) | 6 == command | 6,
{
    let two = command / 2 % 4;
    let quiet = quiet_command(command);
    assert(quiet == command - two * 2);
    assert(command & 6 == ((command / 2) % 4) * 2) by (bit_vector);
    assert((command & !6u32) == (command - (command & 6u32)) as u32) by (bit_vector);
    assert(quiet == command & !6u32);
    assert((command & !6u32) & 6 == 0) by (bit_vector);
    assert((command & !6u32) | 6 == command | 6) by (bit_vector);
    assert(((command & !6u32) + 2) as u32 == (command & !6u32) | 2) by (bit_vector);
    assert(((command & !6u32) | 2) & 6 == 2) by (bit_vector);
    assert(((command & !6u32) | 2) | 6 == command | 6) by (bit_vector);
    assert((command & !6u32) <= 0xFFFF_FFF9) by (bit_vector);
}

/// A function whose registers ask for `size` bytes of memory: it keeps what is written, but answers
/// all ones with the complement of the size, and in the lowest four bits with what kind of range it
/// is.
pub open spec fn asks_for<C: PciConfig>(address: PciAddress, size: u64, kind: u32) -> bool {
    let mask = 0x1_0000_0000_0000_0000 - size;
    &&& forall|c: C, offset: u16, value: u32| (#[trigger] c.written(address, offset, value)).0 is Ok
    &&& forall|c: C, offset: u16, value: u32, other: u16|
        #![trigger c.written(address, offset, value).1.register(address, other)]
        c.written(address, offset, value).1.register(address, other) == (if other != offset {
            c.register(address, other)
        } else if value == 0xFFFF_FFFF && offset == 0x10 {
            Ok((mask % 0x1_0000_0000 + kind) as u32)
        } else if value == 0xFFFF_FFFF && offset == 0x14 {
            Ok((mask / 0x1_0000_0000) as u32)
        } else {
            Ok(value)
        })
}

/// A probe of a function that asks for a power of two of bytes, at least sixteen, in a range with
/// 64-bit addresses, gives this size, and the address that the two registers held. Afterwards they
/// hold it again, and the function answers in memory but does not reach it on its own.
pub proof fn law_a_probe_gives_the_size<C: PciConfig>(
    c: C,
    address: PciAddress,
    size: u64,
    low: u32,
    high: u32,
    command: u32,
)
    requires
        asks_for::<C>(address, size, 4),
        c.register(address, 0x04) == Ok::<u32, PciError>(command),
        c.register(address, 0x10) == Ok::<u32, PciError>(low),
        c.register(address, 0x14) == Ok::<u32, PciError>(high),
        low % 16 == 4,
        low != 0xFFFF_FFFF,
        high != 0xFFFF_FFFF,
        size >= 16,
        size % 16 == 0,
        size & (size - 1) as u64 == 0,
        (high * 0x1_0000_0000 + (low - 4)) % (size as int) == 0,
        high * 0x1_0000_0000 + (low - 4) > 0,
        high * 0x1_0000_0000 + (low - 4) + size <= u64::MAX,
    ensures
        ({
            let probed = probe_step(c, address);
            &&& probed.result == Ok::<_, PciError>(
                BarInfo {
                    base: (high * 0x1_0000_0000 + (low - 4)) as u64,
                    size,
                    is_64: true,
                },
            )
            &&& probed.config.register(address, 0x10) == Ok::<u32, PciError>(low)
            &&& probed.config.register(address, 0x14) == Ok::<u32, PciError>(high)
            &&& probed.config.register(address, 0x04) == Ok::<u32, PciError>(
                enabled_command(command),
            )
        }),
{
    let mask = (0x1_0000_0000_0000_0000 - size) as u64;
    assert(bar_width(low) == Some(true));
    let c1 = c.written(address, 0x04, quiet_command(command)).1;
    let c2 = c1.written(address, 0x10, 0xFFFF_FFFF).1;
    let c3 = c2.written(address, 0x14, 0xFFFF_FFFF).1;
    let c4 = c3.written(address, 0x10, low).1;
    let c5 = c4.written(address, 0x14, high).1;
    let c6 = c5.written(address, 0x04, enabled_command(command)).1;
    let mask_low = (mask as int % 0x1_0000_0000 + 4) as u32;
    let mask_high = (mask as int / 0x1_0000_0000) as u32;
    assert(mask % 16 == 0);
    assert(mask as int % 0x1_0000_0000 % 16 == 0);
    assert(c2.register(address, 0x10) == Ok::<u32, PciError>(mask_low));
    assert(c3.register(address, 0x10) == c2.register(address, 0x10));
    assert(c3.register(address, 0x14) == Ok::<u32, PciError>(mask_high));
    assert(bar_address(mask_low, mask_high, true) == mask);
    assert(c4.register(address, 0x10) == Ok::<u32, PciError>(low));
    assert(c5.register(address, 0x10) == c4.register(address, 0x10));
    assert(c5.register(address, 0x14) == Ok::<u32, PciError>(high));
    assert(c6.register(address, 0x10) == c5.register(address, 0x10));
    assert(c6.register(address, 0x14) == c5.register(address, 0x14));
    let ones = write_bars_step(c1, address, 0xFFFF_FFFF, 0xFFFF_FFFF, true);
    assert(ones.config == c3);
    assert(read_mask_step(c3, address, true).result == Ok::<u64, PciError>(mask));
    let back = write_bars_step(c3, address, low, high, true);
    assert(back.config == c5);
    let sized = size_step(c, address, command, low, high, true);
    assert(sized.result == Ok::<u64, PciError>(mask) && sized.config == c5);
    let base = bar_address(low, high, true);
    assert(base == high * 0x1_0000_0000 + (low - 4));
    assert(bar_of(base, mask, true) is Ok);
    assert(probe_step(c, address).config == c6);
}

/// A chain of capabilities: each stands as many words behind the one before as that one says, and
/// the last says zero.
pub open spec fn is_chain(
    capability: spec_fn(int) -> Capability,
    places: Seq<int>,
) -> bool {
    &&& 0 < places.len()
    &&& forall|i: int|
        0 <= i < places.len() - 1 ==> capability(#[trigger] places[i]).next != 0 && places[i + 1]
            == places[i] + 4 * capability(places[i]).next
    &&& capability(places.last()).next == 0
}

/// The ports that capabilities name for a protocol: those of the first with the protocol that names
/// some.
pub open spec fn names_ports(
    capability: spec_fn(int) -> Capability,
    places: Seq<int>,
    from: int,
    before: (u8, u8),
    after: (u8, u8),
    is_protocol: spec_fn(u8) -> bool,
) -> bool {
    let some = |place: int|
        capability(place).id == 2 && is_protocol(capability(place).major) && capability(
            place,
        ).ports != (0u8, 0u8);
    if before != (0u8, 0u8) {
        after == before
    } else {
        ||| after == (0u8, 0u8) && forall|i: int|
            from <= i < places.len() ==> !some(#[trigger] places[i])
        ||| exists|i: int|
            {
                &&& from <= i < places.len()
                &&& some(#[trigger] places[i])
                &&& after == capability(places[i]).ports
                &&& forall|j: int| from <= j < i ==> !some(#[trigger] places[j])
            }
    }
}

proof fn lemma_chain(
    capability: spec_fn(int) -> Capability,
    places: Seq<int>,
    from: int,
    left: int,
    so_far: Extended,
)
    requires
        is_chain(capability, places),
        0 <= from < places.len(),
        places.len() - from <= left,
    ensures
        ({
            let found = chain(capability, places[from], left, so_far);
            &&& found.legacy_owned <==> so_far.legacy_owned || exists|i: int|
                from <= i < places.len() && capability(#[trigger] places[i]).id == 1 && capability(
                    places[i],
                ).owned
            &&& names_ports(
                capability,
                places,
                from,
                so_far.usb2,
                found.usb2,
                |major: u8| major == 2,
            )
            &&& names_ports(
                capability,
                places,
                from,
                so_far.usb3,
                found.usb3,
                |major: u8| major >= 3,
            )
        }),
    decreases places.len() - from,
{
    let here = capability(places[from]);
    let next = noted(so_far, here);
    if from == places.len() - 1 {
        assert(here.next == 0);
    } else {
        assert(here.next != 0 && places[from + 1] == places[from] + 4 * here.next);
        lemma_chain(capability, places, from + 1, left - 1, next);
    }
}

/// A controller is owned by the firmware if one of its capabilities of kind 1 says so. The ports of a
/// protocol are those of the first capability of kind 2 that names some for it: revision 2 is the
/// one, and all from 3 on the other.
pub proof fn law_capabilities_are_followed(
    header: Seq<u8>,
    capability: spec_fn(int) -> Capability,
    places: Seq<int>,
)
    requires
        is_chain(capability, places),
        places.len() <= 32,
        places[0] > 0,
        places[0] == 4 * (header[18] + 256 * header[19]),
    ensures
        ({
            let caps = caps_of(header, capability);
            &&& caps.legacy_owned <==> exists|i: int|
                0 <= i < places.len() && capability(#[trigger] places[i]).id == 1 && capability(
                    places[i],
                ).owned
            &&& names_ports(
                capability,
                places,
                0,
                (0, 0),
                caps.usb2_bdf_range,
                |major: u8| major == 2,
            )
            &&& names_ports(
                capability,
                places,
                0,
                (0, 0),
                caps.usb3_bdf_range,
                |major: u8| major >= 3,
            )
        }),
{
    lemma_chain(capability, places, 0, 32, nothing());
    lemma_upper_half(header);
}

proof fn lemma_upper_half(header: Seq<u8>)
    ensures
        crate::bytes::le32(header, 16) / 0x1_0000 == header[18] + 256 * header[19],
{
}

/// The words of a header: the length of the block and the version in the first; slots in the lowest
/// byte and ports in the highest of the second; in the fifth bit 0 for 64-bit addresses, bit 2 for
/// wide contexts, and in bits 12 to 15, where bit 9 is set, the power of two of pages that the
/// controller wants.
pub proof fn law_the_header_says_what_a_controller_can_do(
    header: Seq<u8>,
    capability: spec_fn(int) -> Capability,
)
    requires
        header.len() == 32,
    ensures
        ({
            let caps = caps_of(header, capability);
            &&& caps.cap_length == header[0]
            &&& caps.interface_version == header[2] + 256 * header[3]
            &&& caps.max_slots == header[4]
            &&& caps.max_ports == header[7]
            &&& caps.addr_64 == (header[16] % 2 == 1)
            &&& caps.context_64 == (header[16] / 4 % 2 == 1)
            &&& header[17] / 2 % 2 == 0 ==> caps.scratchpad_count == 0
            &&& header[17] / 2 % 2 == 1 ==> caps.scratchpad_count == power_of_two(
                (header[17] / 16) as int,
            ) as u16
        }),
{
    lemma_words(header, 4);
    lemma_words(header, 16);
}

proof fn lemma_words(s: Seq<u8>, at: int)
    ensures
        ({
            let word = crate::bytes::le32(s, at);
            &&& word % 256 == s[at]
            &&& word / 0x100_0000 == s[at + 3]
            &&& word % 2 == s[at] % 2
            &&& word / 4 % 2 == s[at] / 4 % 2
            &&& word / 512 % 2 == s[at + 1] / 2 % 2
            &&& word / 4096 % 16 == s[at + 1] / 16
        }),
{
    let word = crate::bytes::le32(s, at);
    let rest = s[at + 2] as int + 256 * s[at + 3] as int;
    let a = s[at] as int;
    let b = s[at + 1] as int;
    let upper = b + 256 * rest;
    assert(word == a + 256 * upper);
    assert(word as int / 256 == upper);
    assert(upper / 256 == rest);
    assert(rest / 256 == s[at + 3]);
    assert(word as int / 4 == a / 4 + 64 * upper);
    assert(upper / 2 == b / 2 + 128 * rest);
    assert(upper / 16 == b / 16 + 16 * rest);
    assert(word as int / 512 == upper / 2);
    assert(word as int / 4096 == upper / 16);
    assert(word as int / 0x100_0000 == rest / 256);
}

} // verus!
