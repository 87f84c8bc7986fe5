//! What the controller sees of control transfers and of a device that is given an address.
use vstd::prelude::*;

use crate::bytes::{to_le32, to_le64};
use crate::xhci::address::{
    address_entry, address_step, control_endpoint, describe_device, endpoint_word, input_place,
    plan_endpoint, slot_word, Addressing,
};
use crate::xhci::controller::{command_step, XhciController};
use crate::xhci::plan::{plan_store, Answer, Deed};
use crate::xhci::transfer::{
    control_entries, control_step, data_entry, push_step, setup_entry, status_entry, DataStage,
    TransferRing,
};
use crate::xhci::wait::Awaited;
use crate::xhci::wire::{
    holds_long_word, holds_word, is_request, lemma_command, lemma_dequeue, lemma_even,
    lemma_four_stores, lemma_holds, lemma_holds_long, lemma_long_word, lemma_parts, lemma_planned,
    lemma_pushed, lemma_word, long_word, next_mark, next_place, stores,
};

verus! {

/// A ring with one request more.
pub open spec fn behind(ring: TransferRing) -> TransferRing {
    TransferRing {
        phys: ring.phys,
        enqueue: if ring.enqueue < 63 {
            (ring.enqueue + 1) as usize
        } else {
            1
        },
        cycle: next_mark(ring),
    }
}

/// A request is among the actions behind the first, at the next place of a ring.
pub open spec fn asked(
    deeds: Seq<Deed>,
    from: int,
    ring: TransferRing,
    first: int,
    third: int,
    kind: int,
    flags: int,
) -> bool {
    exists|at: int, bytes: Seq<u8>|
        from <= at && #[trigger] stores(deeds, at, next_place(ring), bytes) && is_request(
            bytes,
            first,
            third,
            kind,
            flags,
            next_mark(ring),
        )
}

/// Putting a request on a ring asks for it.
proof fn lemma_asked(
    ring: TransferRing,
    deeds: Seq<Deed>,
    a: Seq<u8>,
    third: u32,
    fourth: u32,
    kind: int,
    flags: int,
)
    requires
        ring.wf(),
        a.len() == 8,
        fourth % 2 == 0,
        fourth == kind * 1024 + flags,
    ensures
        ({
            let s = push_step(ring, deeds, a + to_le32(third) + to_le32(fourth));
            s.result is Ok ==> {
                &&& s.result->Ok_0 == next_place(ring)
                &&& s.state == behind(ring)
                &&& s.deeds.len() > deeds.len() + 1
                &&& s.deeds.take(deeds.len() as int) == deeds
                &&& s.deeds[s.deeds.len() - 1] is Fence
                &&& asked(s.deeds, deeds.len() as int, ring, long_word(a, 0), third as int, kind, flags)
            }
        }),
{
    reveal(is_request);
    lemma_word(third);
    lemma_word(fourth);
    lemma_even(fourth);
    lemma_parts(a, to_le32(third), to_le32(fourth), next_mark(ring));
    let trb = a + to_le32(third) + to_le32(fourth);
    lemma_pushed(ring, deeds, trb);
    let s = push_step(ring, deeds, trb);
    if s.result is Ok {
        let bytes = trb.update(12, (trb[12] + if next_mark(ring) {
            1int
        } else {
            0
        }) as u8);
        assert(stores(s.deeds, s.deeds.len() - 2, next_place(ring), bytes));
    }
}

/// What was asked for stays asked for when more is planned.
proof fn lemma_still_asked(
    deeds: Seq<Deed>,
    more: Seq<Deed>,
    from: int,
    ring: TransferRing,
    first: int,
    third: int,
    kind: int,
    flags: int,
)
    requires
        asked(deeds, from, ring, first, third, kind, flags),
        deeds.len() <= more.len(),
        more.take(deeds.len() as int) == deeds,
    ensures
        asked(more, from, ring, first, third, kind, flags),
{
    let (at, bytes) = choose|at: int, bytes: Seq<u8>|
        from <= at && #[trigger] stores(deeds, at, next_place(ring), bytes) && is_request(
            bytes,
            first,
            third,
            kind,
            flags,
            next_mark(ring),
        );
    assert(more.take(deeds.len() as int)[at] == deeds[at]);
    assert(more.take(deeds.len() as int)[at + 1] == deeds[at + 1]);
    assert(stores(more, at, next_place(ring), bytes));
}

/// The flag for data to the host.
pub open spec fn inward(dir_in: bool) -> int {
    if dir_in {
        0x1_0000
    } else {
        0
    }
}

/// A control transfer that has begun asks, one behind the other on the ring of the control endpoint,
/// for: the setup packet, which travels in the request itself; the data, if there are some, at their
/// address and of their length, in their direction; and the end, in the other direction, which is
/// reported and waited for. Then the controller is told that endpoint 1 of the slot has something to
/// do.
#[verifier::rlimit(40)]
pub proof fn law_a_control_transfer_asks_in_order(
    c: XhciController,
    ring: TransferRing,
    slot: u8,
    deeds: Seq<Deed>,
    setup: Seq<u8>,
    data: DataStage,
)
    requires
        ring.wf(),
        setup.len() == 8,
        control_step(c, ring, slot, deeds, setup, Some(data)).result is Ok,
    ensures
        ({
            let s = control_step(c, ring, slot, deeds, setup, Some(data));
            let wait = s.result->Ok_0;
            let from = deeds.len() as int;
            let n = s.deeds.len() as int;
            let second = behind(ring);
            let third = behind(second);
            &&& data.len <= 4096
            &&& asked(
                s.deeds,
                from,
                ring,
                long_word(setup, 0),
                data.len as int,
                2,
                0x8_0050,
            )
            &&& asked(
                s.deeds,
                from,
                second,
                data.phys as int,
                data.len as int,
                3,
                0x10 + inward(data.dir_in),
            )
            &&& asked(s.deeds, from, third, 0, inward(!data.dir_in), 4, 0x20)
            &&& wait.pointer == next_place(third)
            &&& wait.awaited == (Awaited::Transfer { slot, endpoint: 1 })
            &&& s.state == behind(third)
            &&& s.deeds[n - 2] == Deed::Write {
                offset: (c.db_base + 4 * slot) as u32,
                value: 1,
            }
            &&& s.deeds[n - 1] is Time
        }),
{
    reveal(control_step);
    let from = deeds.len() as int;
    let len = data.len as u32;
    let second = behind(ring);
    let third = behind(second);
    lemma_control_words(data);
    let one = push_step(ring, deeds, setup_entry(setup, data.len));
    lemma_asked(ring, deeds, setup, len, 0x8_0850, 2, 0x8_0050);
    let two = push_step(second, one.deeds, data_entry(data));
    lemma_long_word(data.phys);
    lemma_asked(
        second,
        one.deeds,
        to_le64(data.phys),
        len,
        (0xC10 + inward(data.dir_in)) as u32,
        3,
        0x10 + inward(data.dir_in),
    );
    let three = push_step(third, two.deeds, status_entry(data.dir_in));
    lemma_long_word(0);
    lemma_asked(
        third,
        two.deeds,
        to_le64(0),
        inward(!data.dir_in) as u32,
        0x1020,
        4,
        0x20,
    );
    let s = control_step(c, ring, slot, deeds, setup, Some(data));
    assert(control_entries(ring, deeds, setup, Some(data)) == three);
    let last = s.deeds;
    assert(last.take(three.deeds.len() as int) =~= three.deeds);
    assert(three.deeds.take(one.deeds.len() as int) =~= two.deeds.take(one.deeds.len() as int));
    assert(last.take(one.deeds.len() as int) =~= one.deeds);
    assert(last.take(two.deeds.len() as int) =~= three.deeds.take(two.deeds.len() as int));
    lemma_still_asked(
        one.deeds,
        last,
        from,
        ring,
        long_word(setup, 0),
        len as int,
        2,
        0x8_0050,
    );
    lemma_still_asked(
        two.deeds,
        last,
        one.deeds.len() as int,
        second,
        data.phys as int,
        len as int,
        3,
        0x10 + inward(data.dir_in),
    );
    lemma_still_asked(
        three.deeds,
        last,
        two.deeds.len() as int,
        third,
        0,
        inward(!data.dir_in),
        4,
        0x20,
    );
}

/// The parts of the requests of a control transfer.
proof fn lemma_control_words(data: DataStage)
    requires
        data.len <= 4096,
    ensures
        forall|setup: Seq<u8>|
            #[trigger] setup_entry(setup, data.len) == setup + to_le32(data.len as u32) + to_le32(
                0x8_0850,
            ),
        data_entry(data) == to_le64(data.phys) + to_le32(data.len as u32) + to_le32(
            (0xC10 + inward(data.dir_in)) as u32,
        ),
        status_entry(data.dir_in) == to_le64(0) + to_le32(inward(!data.dir_in) as u32) + to_le32(
            0x1020,
        ),
{
}

/// A control endpoint's context is stored by the actions from a number on: no interval; its packet
/// size, the type 4 and three tries; where its ring goes on; and the packet size and an average of
/// eight.
pub open spec fn control_stored(
    deeds: Seq<Deed>,
    k: int,
    place: int,
    packet: u16,
    dequeue: int,
) -> bool {
    &&& 0 <= k && k + 3 < deeds.len()
    &&& holds_word(deeds[k], place, 0)
    &&& holds_word(deeds[k + 1], place + 4, packet * 0x1_0000 + 38)
    &&& holds_long_word(deeds[k + 2], place + 8, dequeue)
    &&& holds_word(deeds[k + 3], place + 16, packet * 0x1_0000 + 8)
}

pub(crate) proof fn lemma_control_stored(deeds: Seq<Deed>, input: u64, offset: int, packet: u16, dequeue: u64)
    requires
        dequeue % 16 < 2,
        plan_endpoint(deeds, input, offset, control_endpoint(packet, dequeue)).result is Ok,
    ensures
        ({
            let after = plan_endpoint(
                deeds,
                input,
                offset,
                control_endpoint(packet, dequeue),
            ).deeds;
            &&& after.len() == deeds.len() + 4
            &&& after.take(deeds.len() as int) == deeds
            &&& control_stored(
                after,
                deeds.len() as int,
                input + offset,
                packet,
                dequeue as int,
            )
        }),
{
    let context = control_endpoint(packet, dequeue);
    let place = input + offset;
    lemma_four_stores(deeds, input, offset, context);
    let second = endpoint_word(context);
    let fourth = (context.payload * 0x1_0000 + context.average) as u32;
    lemma_control_values(packet, dequeue);
    lemma_holds(place as u64, 0);
    lemma_holds((place + 4) as u64, second);
    lemma_holds_long((place + 8) as u64, dequeue);
    lemma_holds((place + 16) as u64, fourth);
    let after = plan_endpoint(deeds, input, offset, context).deeds;
    assert(after.take(deeds.len() as int) =~= deeds);
}

proof fn lemma_control_values(packet: u16, dequeue: u64)
    requires
        dequeue % 16 < 2,
    ensures
        ({
            let context = control_endpoint(packet, dequeue);
            &&& (context.interval * 0x1_0000) as u32 == 0
            &&& endpoint_word(context) == packet * 0x1_0000 + 38
            &&& (context.dequeue - context.dequeue % 16 + context.dequeue % 2) as u64 == dequeue
            &&& (context.payload * 0x1_0000 + context.average) as u32 == packet * 0x1_0000 + 8
        }),
{
    assert(dequeue % 2 == dequeue % 16) by (nonlinear_arith)
        requires
            dequeue % 16 < 2,
    ;
}

/// The memory for the controller's own context of a device is entered in the table of contexts, under
/// the number of the slot.
pub proof fn law_the_slot_is_entered_in_the_table(
    c: XhciController,
    a: Addressing,
    cpu: u64,
    place: u64,
    deeds: Seq<Deed>,
)
    requires
        a.stage is Output,
        address_step(c, a, Answer::Memory { cpu, device: place }, deeds).result is Ok,
    ensures
        ({
            let s = address_step(c, a, Answer::Memory { cpu, device: place }, deeds);
            &&& s.deeds.len() == deeds.len() + 2
            &&& holds_long_word(
                s.deeds[deeds.len() as int],
                c.dcbaa_phys + 8 * a.slot,
                place as int,
            )
            &&& s.deeds[deeds.len() + 1int] == Deed::Allocate { size: 1024, align: 64 }
        }),
{
    reveal(address_step);
    lemma_holds_long((c.dcbaa_phys + 8 * a.slot) as u64, place);
    lemma_planned(deeds, c.dcbaa_phys + a.slot * 8, to_le64(place));
}

/// When the memory for the contexts is there, a device is described to the controller: two contexts
/// are new, that of the slot and that of the control endpoint. The first names itself as the last in
/// use but one, the speed and the port; the second the packet size for the speed and the start of the
/// ring. Then the command of kind 11 for the slot is put on the command ring.
#[verifier::rlimit(40)]
pub proof fn law_a_device_is_described(
    c: XhciController,
    a: Addressing,
    cpu: u64,
    input: u64,
    deeds: Seq<Deed>,
)
    requires
        c.wf(),
        a.stage is Input,
        a.ep0.phys % 64 == 0,
        a.speed_raw < 16,
        address_step(c, a, Answer::Memory { cpu, device: input }, deeds).result is Ok,
    ensures
        ({
            let s = address_step(c, a, Answer::Memory { cpu, device: input }, deeds);
            let k = deeds.len() as int;
            let stride: int = if c.caps.context_64 {
                64
            } else {
                32
            };
            &&& s.deeds.len() == k + 14
            &&& holds_word(s.deeds[k], input as int, 0)
            &&& holds_word(s.deeds[k + 1], input + 4, 3)
            &&& holds_word(s.deeds[k + 2], input + 32, 0x800_0000 + a.speed_raw * 0x1_0000)
            &&& holds_word(s.deeds[k + 3], input + 36, a.port * 0x1_0000)
            &&& control_stored(s.deeds, k + 6, input + 32 + stride, a.packet, a.ep0.phys + 1)
            &&& exists|bytes: Seq<u8>| #[trigger]
                stores(s.deeds, k + 10, c.cmd_phys + 16 * c.cmd_enqueue, bytes) && is_request(
                    bytes,
                    input as int,
                    0,
                    11,
                    a.slot * 0x100_0000,
                    c.cmd_cycle,
                )
            &&& s.deeds[k + 12] == Deed::Write { offset: c.db_base, value: 0 }
            &&& s.result->Ok_0.0.stage is Address
            &&& s.result->Ok_0.0.wait.pointer == c.cmd_phys + 16 * c.cmd_enqueue
        }),
{
    let told = describe_device(c, a, deeds, input);
    lemma_described_first(c, a, cpu, input, deeds);
    lemma_device_words(c, a, input, deeds);
    lemma_command(c, told.deeds, input, 11, a.slot);
    lemma_address_entry(input, a.slot);
    let sent = command_step(c, told.deeds, address_entry(input, a.slot));
    let s = address_step(c, a, Answer::Memory { cpu, device: input }, deeds);
    let k = deeds.len() as int;
    let m = told.deeds.len() as int;
    assert(s.deeds == sent.deeds.push(Deed::Time));
    assert forall|j: int| 0 <= j < m implies #[trigger] s.deeds[j] == told.deeds[j] by {
        assert(sent.deeds.take(m)[j] == told.deeds[j]);
    }
    let bytes = choose|bytes: Seq<u8>| #[trigger]
        stores(sent.deeds, m, sent.result->Ok_0 as int, bytes) && is_request(
            bytes,
            input as int,
            0,
            11,
            a.slot * 0x100_0000,
            c.cmd_cycle,
        );
    assert(stores(s.deeds, k + 10, c.cmd_phys + 16 * c.cmd_enqueue, bytes));
}

proof fn lemma_address_entry(input: u64, slot: u8)
    ensures
        address_entry(input, slot) == to_le64(input) + to_le32(0) + to_le32(
            (11u32 * 1024 + slot * 0x100_0000) as u32,
        ),
{
}

/// A description is followed by the command.
proof fn lemma_described_first(
    c: XhciController,
    a: Addressing,
    cpu: u64,
    input: u64,
    deeds: Seq<Deed>,
)
    requires
        a.stage is Input,
        address_step(c, a, Answer::Memory { cpu, device: input }, deeds).result is Ok,
    ensures
        ({
            let s = address_step(c, a, Answer::Memory { cpu, device: input }, deeds);
            let told = describe_device(c, a, deeds, input);
            let sent = command_step(c, told.deeds, address_entry(input, a.slot));
            &&& told.result is Ok
            &&& sent.result is Ok
            &&& s.deeds == sent.deeds.push(Deed::Time)
            &&& s.result->Ok_0.0.stage is Address
            &&& s.result->Ok_0.0.wait.pointer == sent.result->Ok_0
        }),
{
    reveal(address_step);
}

proof fn lemma_device_words(c: XhciController, a: Addressing, input: u64, deeds: Seq<Deed>)
    requires
        a.ep0.phys % 64 == 0,
        a.speed_raw < 16,
        describe_device(c, a, deeds, input).result is Ok,
    ensures
        ({
            let after = describe_device(c, a, deeds, input).deeds;
            let k = deeds.len() as int;
            let stride: int = if c.caps.context_64 {
                64
            } else {
                32
            };
            &&& after.len() == k + 10
            &&& holds_word(after[k], input as int, 0)
            &&& holds_word(after[k + 1], input + 4, 3)
            &&& holds_word(after[k + 2], input + 32, 0x800_0000 + a.speed_raw * 0x1_0000)
            &&& holds_word(after[k + 3], input + 36, a.port * 0x1_0000)
            &&& control_stored(after, k + 6, input + 32 + stride, a.packet, a.ep0.phys + 1)
        }),
{
    let k = deeds.len() as int;
    let slot = slot_word(a.speed_raw, 1);
    let port = (a.port * 0x1_0000) as u32;
    let b0 = to_le32(0);
    let b1 = to_le32(3);
    let b2 = to_le32(slot);
    let b3 = to_le32(port);
    lemma_planned(deeds, input as int, b0);
    let d1 = plan_store(deeds, input as int, b0).deeds;
    lemma_planned(d1, input + 4, b1);
    let d2 = plan_store(d1, input + 4, b1).deeds;
    lemma_planned(d2, input + 32, b2);
    let d3 = plan_store(d2, input + 32, b2).deeds;
    lemma_planned(d3, input + 36, b3);
    let d4 = plan_store(d3, input + 36, b3).deeds;
    lemma_planned(d4, input + 40, b0);
    let d5 = plan_store(d4, input + 40, b0).deeds;
    lemma_planned(d5, input + 44, b0);
    let d6 = plan_store(d5, input + 44, b0).deeds;
    let dequeue = (a.ep0.phys - a.ep0.phys % 2 + 1) as u64;
    lemma_dequeue(a.ep0.phys);
    let offset = input_place(1, c.caps.context_64);
    let last = plan_endpoint(d6, input, offset, control_endpoint(a.packet, dequeue));
    assert(describe_device(c, a, deeds, input) == last);
    lemma_low_bits(a.ep0.phys);
    lemma_control_stored(d6, input, offset, a.packet, dequeue);
    lemma_holds(input, 0);
    lemma_holds((input + 4) as u64, 3);
    lemma_holds((input + 32) as u64, slot);
    lemma_holds((input + 36) as u64, port);
    assert forall|j: int| 0 <= j < d6.len() implies #[trigger] last.deeds[j] == d6[j] by {
        assert(last.deeds.take(d6.len() as int)[j] == d6[j]);
    }
}

proof fn lemma_low_bits(phys: u64)
    requires
        phys % 64 == 0,
    ensures
        ((phys - phys % 2 + 1) as u64) % 16 < 2,
{
    lemma_dequeue(phys);
    assert((phys + 1) % 16 == 1) by (nonlinear_arith)
        requires
            phys % 64 == 0,
    ;
}

} // verus!
