//! What the controller reports, byte by byte and bit by bit: events, and the registers of ports.
use vstd::prelude::*;

use crate::bytes::{le32, le64};
use crate::xhci::bringup::writes_address;
use crate::xhci::controller::{
    advance_step, plan_doorbell, plan_event_ring, poll_step, Polling, XhciController,
};
use crate::xhci::plan::Deed;
use crate::xhci::port::{is_connected, is_ready, port_offset, resetting};
use crate::xhci::wait::{verdict, Awaited};
use crate::xhci::wire::long_word;
use crate::xhci::{command_event, port_event, transfer_event, type_of, XhciError};

verus! {

/// An entry is one of the three reports that a controller makes.
pub open spec fn is_report(trb: Seq<u8>) -> bool {
    32 <= trb[13] / 4 <= 34
}

proof fn lemma_fields(trb: Seq<u8>)
    requires
        trb.len() == 16,
    ensures
        type_of(trb) == trb[13] / 4,
        le64(trb, 0) == long_word(trb, 0),
        le32(trb, 8) / 0x100_0000 == trb[11],
        le32(trb, 8) % 0x100_0000 == trb[8] + 0x100 * trb[9] + 0x1_0000 * trb[10],
        le32(trb, 12) / 0x100_0000 == trb[15],
        le32(trb, 12) / 0x1_0000 % 32 == trb[14] % 32,
        le32(trb, 0) / 0x100_0000 == trb[3],
{
    let low = trb[12] + 0x100 * trb[13];
    let high = trb[14] + 0x100 * trb[15];
    assert(le32(trb, 12) == low + 0x1_0000 * high);
    assert(le32(trb, 12) / 0x1_0000 == high);
    assert(le32(trb, 12) / 1024 == low / 1024 + 64 * high);
    assert(low / 1024 == trb[13] / 4);
}

/// The fields of an event are where the controller puts them: the address of the entry in the
/// first eight bytes, the bytes that were not moved in the next three, the completion code
/// behind them, the endpoint in the low bits of byte 14, and the slot in the last byte. A change
/// of a port has the port in byte 3.
pub proof fn law_events_are_read_in_place(trb: Seq<u8>)
    requires
        trb.len() == 16,
    ensures
        transfer_event(trb).pointer == long_word(trb, 0),
        transfer_event(trb).length == trb[8] + 0x100 * trb[9] + 0x1_0000 * trb[10],
        transfer_event(trb).code == trb[11],
        transfer_event(trb).endpoint == trb[14] % 32,
        transfer_event(trb).slot == trb[15],
        command_event(trb).pointer == long_word(trb, 0),
        command_event(trb).code == trb[11],
        command_event(trb).slot == trb[15],
        port_event(trb).port == trb[3],
        port_event(trb).code == trb[11],
{
    lemma_fields(trb);
}

/// A wait for a transfer ends with the report of that transfer and no other, and as the report
/// says: well only if slot and endpoint are those that were asked and the code is 1.
pub proof fn law_a_transfer_ends_as_reported(pointer: u64, slot: u8, endpoint: u8, trb: Seq<u8>)
    requires
        trb.len() == 16,
    ensures
        ({
            let v = verdict(pointer, Awaited::Transfer { slot, endpoint }, trb);
            let own = trb[13] / 4 == 32 && long_word(trb, 0) == pointer;
            let asked = trb[15] == slot && trb[14] % 32 == endpoint;
            &&& v is None <==> is_report(trb) && !own
            &&& !is_report(trb) ==> v == Some(Err::<u8, _>(XhciError::UnsupportedEvent))
            &&& own && !asked ==> v == Some(Err::<u8, _>(XhciError::InvalidSlot))
            &&& own && asked && trb[11] == 1 ==> v == Some(Ok::<_, XhciError>(slot))
            &&& own && asked && trb[11] == 6 ==> v == Some(Err::<u8, _>(XhciError::Stalled))
            &&& own && asked && trb[11] != 1 && trb[11] != 6 ==> v == Some(
                Err::<u8, _>(XhciError::TransferFailed(trb[11])),
            )
        }),
{
    lemma_fields(trb);
}

/// A wait for a command ends with the report of that command and no other, and as the report
/// says. Its slot is what a command that asks for one is given; a command for a slot fails if
/// the report names another.
pub proof fn law_a_command_ends_as_reported(pointer: u64, slot: u8, trb: Seq<u8>)
    requires
        trb.len() == 16,
    ensures
        ({
            let v = verdict(pointer, Awaited::Command { slot }, trb);
            let own = trb[13] / 4 == 33 && long_word(trb, 0) == pointer;
            let asked = slot == 0 || trb[15] == slot;
            &&& v is None <==> is_report(trb) && !own
            &&& !is_report(trb) ==> v == Some(Err::<u8, _>(XhciError::UnsupportedEvent))
            &&& own && !asked ==> v == Some(Err::<u8, _>(XhciError::InvalidSlot))
            &&& own && asked && trb[11] == 1 ==> v == Some(Ok::<_, XhciError>(trb[15]))
            &&& own && asked && trb[11] == 6 ==> v == Some(Err::<u8, _>(XhciError::Stalled))
            &&& own && asked && trb[11] != 1 && trb[11] != 6 ==> v == Some(
                Err::<u8, _>(XhciError::TransferFailed(trb[11])),
            )
        }),
{
    lemma_fields(trb);
}

/// The registers of the ports follow each other, 16 bytes apart, from 0x400 behind the
/// operational registers on; there is no port 0.
pub proof fn law_ports_follow_each_other(op_base: u32, port: u8)
    ensures
        port_offset(op_base, port) is Ok <==> port > 0 && op_base + 0x3F0 + 16 * port <= u32::MAX,
        port_offset(op_base, port) matches Ok(at) ==> at == op_base + 0x3F0 + 16 * port,
        port_offset(op_base, port) matches Err(e) ==> e == XhciError::NoPorts,
{
}

/// A reset sets bit 4 of the register and leaves every other bit. A port has a device if bit 0
/// is set. It is ready once bit 1 is set too, and bit 4 is clear again or bit 5 notes that it
/// was.
pub proof fn law_ports_are_read_bit_by_bit(portsc: u32)
    ensures
        resetting(portsc) == portsc | 0x10,
        is_connected(portsc) <==> portsc & 1 != 0,
        is_ready(portsc) <==> portsc & 1 != 0 && portsc & 2 != 0 && (portsc & 0x10 == 0 || portsc
            & 0x20 != 0),
{
    assert(portsc % 2 == 1 <==> portsc & 1 != 0) by (bit_vector);
    assert(portsc / 2 % 2 == 1 <==> portsc & 2 != 0) by (bit_vector);
    assert(portsc / 0x10 % 2 == 0 <==> portsc & 0x10 == 0) by (bit_vector);
    assert(portsc / 0x20 % 2 == 1 <==> portsc & 0x20 != 0) by (bit_vector);
    assert(portsc & 0x10 == 0 ==> portsc + 0x10 == portsc | 0x10) by (bit_vector);
    assert(portsc & 0x10 != 0 ==> portsc == portsc | 0x10) by (bit_vector);
}

/// The controller is told of one segment of events, where its table is, and where the first
/// event will be. The table comes last: from then on events are written.
pub proof fn law_the_event_ring_is_told_in_place(c: XhciController, deeds: Seq<Deed>)
    requires
        plan_event_ring(c, deeds).result is Ok,
    ensures
        ({
            let told = plan_event_ring(c, deeds).deeds;
            let n = deeds.len() as int;
            &&& told.len() == n + 6
            &&& told[n] is Fence
            &&& told[n + 1] == Deed::Write { offset: (c.rt_base + 0x28) as u32, value: 1 }
            &&& writes_address(told, n + 2, c.rt_base + 0x38, c.evt_phys as int)
            &&& writes_address(told, n + 4, c.rt_base + 0x30, c.erst_phys as int)
        }),
{
}

/// Taking an event moves to the next of the 64 entries, and behind the last to the first, where
/// the mark is the other one. The controller is told how far the events have been taken.
pub proof fn law_events_are_taken_in_a_circle(c: XhciController, deeds: Seq<Deed>)
    requires
        c.evt_dequeue < 64,
        advance_step(c, deeds).result is Ok,
    ensures
        ({
            let after = advance_step(c, deeds);
            let n = deeds.len() as int;
            &&& after.state.evt_dequeue == (c.evt_dequeue + 1) % 64
            &&& (after.state.evt_cycle == c.evt_cycle) <==> c.evt_dequeue < 63
            &&& after.deeds.len() == n + 4
            &&& writes_address(
                after.deeds,
                n,
                c.rt_base + 0x38,
                c.evt_phys + 16 * after.state.evt_dequeue,
            )
            &&& after.deeds[n + 2] == Deed::Write { offset: (c.op_base + 4) as u32, value: 8 }
            &&& after.deeds[n + 3] == Deed::Write { offset: (c.rt_base + 0x20) as u32, value: 1 }
        }),
{
}

/// Each slot has a doorbell of its own, four bytes behind that of the slot before it, and what is
/// written there is the endpoint that has something to do.
pub proof fn law_each_slot_has_a_doorbell(c: XhciController, deeds: Seq<Deed>, slot: u8, target: u8)
    requires
        plan_doorbell(c, deeds, slot, target).result is Ok,
    ensures
        plan_doorbell(c, deeds, slot, target).deeds == deeds.push(
            Deed::Write { offset: (c.db_base + 4 * slot) as u32, value: target as u32 },
        ),
        c.db_base + 4 * slot + 4 <= c.registers.len,
{
}

/// Polling takes the entries one behind the other as long as they are new, at most the 64 of the
/// ring, and then tells the controller where the first is that was not taken.
pub proof fn law_polling_takes_what_is_new(
    c: XhciController,
    p: Polling,
    trb: Seq<u8>,
    deeds: Seq<Deed>,
)
    requires
        p.dequeue < 64,
        poll_step(c, p, trb, deeds).result is Ok,
    ensures
        ({
            let after = poll_step(c, p, trb, deeds);
            let (q, taken) = after.result->Ok_0;
            let n = deeds.len() as int;
            let new = trb[12] % 2 == if p.cycle {
                1int
            } else {
                0
            };
            &&& new ==> {
                &&& taken is None && after.state == c
                &&& p.consumed < 64 && q.consumed == p.consumed + 1
                &&& q.dequeue == (p.dequeue + 1) % 64
                &&& (q.cycle == p.cycle) <==> p.dequeue < 63
                &&& after.deeds == deeds.push(
                    Deed::Load { address: (c.evt_phys + 16 * q.dequeue) as u64 },
                )
            }
            &&& !new ==> taken == Some(p.consumed)
            &&& !new && p.consumed == 0 ==> after.deeds == deeds && after.state == c
            &&& !new && p.consumed > 0 ==> {
                &&& after.state.evt_dequeue == p.dequeue && after.state.evt_cycle == p.cycle
                &&& after.deeds.len() == n + 4
                &&& writes_address(after.deeds, n, c.rt_base + 0x38, c.evt_phys + 16 * p.dequeue)
            }
        }),
{
}

} // verus!
