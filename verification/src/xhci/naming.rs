//! How a device comes to its slot, its address and its packet size.
use vstd::prelude::*;

use crate::bytes::{to_le32, to_le64};
use crate::xhci::address::{
    address_step, after_wait, after_word, control_endpoint, describe_packet, evaluate_entry,
    input_place, plan_endpoint, AddressStage, Addressing,
};
use crate::xhci::asking::{control_stored, lemma_control_stored};
use crate::xhci::controller::{command_step, XhciController};
use crate::xhci::events::law_ports_are_read_bit_by_bit;
use crate::xhci::plan::{plan_store, Answer, Deed};
use crate::xhci::transfer::idle_place;
use crate::xhci::wire::{
    holds_word, is_request, lemma_command, lemma_holds, lemma_planned, stores,
};

verus! {

/// A port is reset by bit 4 of its register, and every other bit is written back as it was. It is
/// used once bits 0 and 1 are set and the reset is over; then its register is written back as it
/// is, which acknowledges its changes, and read again.
pub proof fn law_a_port_is_reset_first(
    c: XhciController,
    a: Addressing,
    word: u32,
    deadline: u64,
    deeds: Seq<Deed>,
)
    ensures
        ({
            let s = after_word(c, a, word, deeds);
            let at = (c.op_base + 0x3F0 + 16 * a.port) as u32;
            let ready = word & 1 != 0 && word & 2 != 0 && (word & 0x10 == 0 || word & 0x20 != 0);
            &&& a.stage is Port ==> (s.result matches Ok((t, _)) ==> {
                &&& s.deeds == deeds.push(Deed::Write { offset: at, value: word | 0x10 }).push(
                    Deed::Time,
                )
                &&& t.stage is Deadline
            })
            &&& a.stage == AddressStage::Watch(deadline) ==> (
            s.result matches Ok((t, _)) ==> if ready {
                &&& s.deeds == deeds.push(Deed::Write { offset: at, value: word }).push(
                    Deed::Read { offset: at },
                )
                &&& t.stage is Speed
            } else {
                &&& s.deeds == deeds.push(Deed::Time)
                &&& t.stage is Pause
            })
        }),
{
    law_ports_are_read_bit_by_bit(word);
}

/// The speed is in bits 10 to 13 of the register: 1 is full, 2 low, 3 high, and 4 and 5 are the
/// two higher. The first packets have 8 bytes at the two lowest speeds, 64 at high speed and 512
/// above.
pub proof fn law_the_speed_gives_the_first_packet(
    c: XhciController,
    a: Addressing,
    word: u32,
    deeds: Seq<Deed>,
)
    requires
        a.stage is Speed,
    ensures
        ({
            let raw = (word >> 10) & 15;
            let s = after_word(c, a, word, deeds);
            &&& !(1 <= raw <= 5) ==> s.result is Err
            &&& s.result matches Ok((t, _)) ==> {
                &&& t.speed_raw == raw && t.port == a.port && t.stage is Enable
                &&& raw == 1 ==> t.speed is Full && t.packet == 8
                &&& raw == 2 ==> t.speed is Low && t.packet == 8
                &&& raw == 3 ==> t.speed is High && t.packet == 64
                &&& raw == 4 ==> t.speed is Super && t.packet == 512
                &&& raw == 5 ==> t.speed is SuperPlus && t.packet == 512
            }
        }),
{
    assert((word >> 10) & 15 == word / 1024 % 16) by (bit_vector);
}

/// The slot of a device is the one that the controller gives it. Slot 0 is none.
pub proof fn law_the_slot_is_the_one_given(
    c: XhciController,
    a: Addressing,
    slot: u8,
    deeds: Seq<Deed>,
)
    requires
        a.stage is Enable,
    ensures
        after_wait(c, a, slot, deeds).result is Ok <==> slot != 0,
        after_wait(c, a, slot, deeds).result matches Ok((t, done)) ==> {
            &&& done is None
            &&& t.slot == slot && t.port == a.port && t.speed == a.speed && t.speed_raw
                == a.speed_raw && t.packet == a.packet
            &&& after_wait(c, a, slot, deeds).deeds == deeds.push(
                Deed::Allocate { size: 2048, align: 64 },
            )
        },
{
}

/// The last of the eight bytes that a device tells of itself is its packet size. If that is a
/// size that a packet can have and not the one that was used, the controller is told; else the
/// device is ready. A device that is ready is the one at the port, with its slot and its speed.
pub proof fn law_a_device_tells_its_packet_size(
    c: XhciController,
    a: Addressing,
    entry: [u8; 8],
    deeds: Seq<Deed>,
)
    requires
        a.stage is Descriptor,
    ensures
        ({
            let s = address_step(c, a, Answer::Start(entry), deeds);
            let told = entry@[7];
            let size = told == 8 || told == 16 || told == 32 || told == 64;
            &&& s.result matches Ok((t, done)) && if size && told != a.packet {
                &&& done is None && t.stage is Evaluation && t.packet == told
                &&& t.slot == a.slot && t.port == a.port && t.ep0 == a.ep0
                &&& s.deeds == deeds.push(Deed::Allocate { size: 4096, align: 64 })
            } else {
                &&& s.deeds == deeds
                &&& done matches Some(device) && {
                    &&& device.handle.slot_id == a.slot
                    &&& device.handle.root_port == a.port
                    &&& device.handle.speed == a.speed
                    &&& device.speed_raw == a.speed_raw
                    &&& device.ep0_max_packet == a.packet
                    &&& device.ep0 == a.ep0
                }
            }
        }),
{
    reveal(address_step);
}

proof fn lemma_evaluate_entry(input: u64, slot: u8)
    ensures
        evaluate_entry(input, slot) == to_le64(input) + to_le32(0) + to_le32(
            (13u32 * 1024 + slot * 0x100_0000) as u32,
        ),
{
}

proof fn lemma_evaluated(
    c: XhciController,
    a: Addressing,
    cpu: u64,
    input: u64,
    deeds: Seq<Deed>,
)
    requires
        a.stage is Evaluation,
        address_step(c, a, Answer::Memory { cpu, device: input }, deeds).result is Ok,
    ensures
        ({
            let s = address_step(c, a, Answer::Memory { cpu, device: input }, deeds);
            let told = describe_packet(c, a, deeds, input);
            let sent = command_step(c, told.deeds, evaluate_entry(input, a.slot));
            &&& told.result is Ok
            &&& sent.result is Ok
            &&& s.deeds == sent.deeds.push(Deed::Time)
            &&& s.result->Ok_0.0.stage is Evaluate
            &&& s.result->Ok_0.0.wait.pointer == sent.result->Ok_0
        }),
{
    reveal(address_step);
}

proof fn lemma_packet_words(c: XhciController, a: Addressing, input: u64, deeds: Seq<Deed>)
    requires
        describe_packet(c, a, deeds, input).result is Ok,
    ensures
        ({
            let after = describe_packet(c, a, deeds, input).deeds;
            let k = deeds.len() as int;
            let stride: int = if c.caps.context_64 {
                64
            } else {
                32
            };
            &&& after.len() == k + 6
            &&& holds_word(after[k], input as int, 0)
            &&& holds_word(after[k + 1], input + 4, 2)
            &&& control_stored(
                after,
                k + 2,
                input + 32 + stride,
                a.packet,
                a.ep0.phys + 16 * a.ep0.enqueue + if a.ep0.cycle {
                    1int
                } else {
                    0
                },
            )
        }),
{
    let b0 = to_le32(0);
    let b1 = to_le32(2);
    lemma_planned(deeds, input as int, b0);
    let d1 = plan_store(deeds, input as int, b0).deeds;
    lemma_planned(d1, input + 4, b1);
    let d2 = plan_store(d1, input + 4, b1).deeds;
    let dequeue = idle_place(a.ep0)->Ok_0;
    let offset = input_place(1, c.caps.context_64);
    let last = plan_endpoint(d2, input, offset, control_endpoint(a.packet, dequeue));
    assert(describe_packet(c, a, deeds, input) == last);
    lemma_control_stored(d2, input, offset, a.packet, dequeue);
    lemma_holds(input, 0);
    lemma_holds((input + 4) as u64, 2);
    assert forall|j: int| 0 <= j < d2.len() implies #[trigger] last.deeds[j] == d2[j] by {
        assert(last.deeds.take(d2.len() as int)[j] == d2[j]);
    }
}

/// A device that told another packet size is described anew: only the context of the control
/// endpoint is named, with that size and with the place where its ring goes on. Then the command
/// of kind 13 for the slot is put on the command ring.
#[verifier::rlimit(40)]
pub proof fn law_the_packet_size_is_told(
    c: XhciController,
    a: Addressing,
    cpu: u64,
    input: u64,
    deeds: Seq<Deed>,
)
    requires
        c.wf(),
        a.stage is Evaluation,
        address_step(c, a, Answer::Memory { cpu, device: input }, deeds).result is Ok,
    ensures
        ({
            let s = address_step(c, a, Answer::Memory { cpu, device: input }, deeds);
            let k = deeds.len() as int;
            let stride: int = if c.caps.context_64 {
                64
            } else {
                32
            };
            &&& s.deeds.len() == k + 10
            &&& holds_word(s.deeds[k], input as int, 0)
            &&& holds_word(s.deeds[k + 1], input + 4, 2)
            &&& control_stored(
                s.deeds,
                k + 2,
                input + 32 + stride,
                a.packet,
                a.ep0.phys + 16 * a.ep0.enqueue + if a.ep0.cycle {
                    1int
                } else {
                    0
                },
            )
            &&& exists|bytes: Seq<u8>| #[trigger]
                stores(s.deeds, k + 6, c.cmd_phys + 16 * c.cmd_enqueue, bytes) && is_request(
                    bytes,
                    input as int,
                    0,
                    13,
                    a.slot * 0x100_0000,
                    c.cmd_cycle,
                )
            &&& s.deeds[k + 8] == Deed::Write { offset: c.db_base, value: 0 }
            &&& s.result->Ok_0.0.stage is Evaluate
            &&& s.result->Ok_0.0.wait.pointer == c.cmd_phys + 16 * c.cmd_enqueue
        }),
{
    let told = describe_packet(c, a, deeds, input);
    lemma_evaluated(c, a, cpu, input, deeds);
    lemma_packet_words(c, a, input, deeds);
    lemma_command(c, told.deeds, input, 13, a.slot);
    lemma_evaluate_entry(input, a.slot);
    let sent = command_step(c, told.deeds, evaluate_entry(input, a.slot));
    let s = address_step(c, a, Answer::Memory { cpu, device: input }, deeds);
    let k = deeds.len() as int;
    let m = told.deeds.len() as int;
    assert(s.deeds == sent.deeds.push(Deed::Time));
    assert forall|j: int| 0 <= j < m implies #[trigger] s.deeds[j] == told.deeds[j] by {
        assert(sent.deeds.take(m)[j] == told.deeds[j]);
    }
    let bytes = choose|bytes: Seq<u8>| #[trigger]
        stores(sent.deeds, m, sent.result->Ok_0 as int, bytes) && is_request(
            bytes,
            input as int,
            0,
            13,
            a.slot * 0x100_0000,
            c.cmd_cycle,
        );
    assert(stores(s.deeds, k + 6, c.cmd_phys + 16 * c.cmd_enqueue, bytes));
}

} // verus!
