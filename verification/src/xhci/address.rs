//! Giving a device an address: resetting its port, enabling a slot, describing the device to the
//! controller, and learning the packet size of its control endpoint.
use vstd::prelude::*;

use crate::bytes::{to_le32, to_le64};
use crate::clock::{ahead, deadline_after};
use crate::memory::{direct_address, directly_mapped};
use crate::xhci::{
    control_word, encode_address_device, encode_enable_slot, first_packet, put_trb, speed_of,
    trb_control, trb_of, DeviceHandle, UsbSpeed, XhciError, TYPE_ADDRESS_DEVICE, TYPE_ENABLE_SLOT,
};
use crate::xhci::context::{device_context_offset, ep0_max_packet_valid, stride_of};
use crate::xhci::controller::{
    command_step, plan_event_ring, plan_read_portsc, plan_write_portsc, run, Run, XhciController,
};
use crate::xhci::plan::{also, decided, plan_store, Action, Answer, Deed, Plan, Planned};
use crate::xhci::port::{is_ready, ready, resetting, with_reset};
use crate::xhci::transfer::{
    control_step, idle_place, new_ring, ring_step, Addressed, DataStage, TransferRing,
    GET_DESCRIPTOR_8, TYPE_EVALUATE_CONTEXT,
};
use crate::xhci::wait::{new_wait, wait_step, Awaited, EventWait, WaitStage, Waited};

verus! {

/// Bytes in the context that describes changes to the controller.
pub const INPUT_CONTEXT_BYTES: usize = 4096;

/// Bytes in the context that the controller keeps.
pub const OUTPUT_CONTEXT_BYTES: usize = 2048;

/// Bytes in a ring.
pub const RING_SEGMENT_BYTES: usize = 1024;

/// Bytes at the start of a descriptor, the last of which is the packet size.
pub const START_BYTES: usize = 8;

/// Bytes in the buffer for a descriptor.
pub const DESCRIPTOR_BYTES: usize = 64;

/// The type of a control endpoint.
pub const EP_TYPE_CONTROL: u8 = 4;

/// What the controller is told of an endpoint.
#[derive(Clone, Copy, Debug, PartialEq, Eq, Structural)]
pub struct EndpointContext {
    pub max_packet: u16,
    pub interval: u8,
    pub burst: u8,
    pub ep_type: u8,
    pub dequeue: u64,
    pub average: u16,
    pub payload: u16,
}

/// Says which contexts are new.
pub open spec fn plan_input_control(deeds: Seq<Deed>, input: u64, flags: u32) -> Planned<()> {
    plan_store(deeds, input as int, to_le32(0)).and_then(
        |u: (), deeds: Seq<Deed>| plan_store(deeds, input + 4, to_le32(flags)),
    )
}

/// The first word of a slot's context: the last context in use, and the speed.
pub open spec fn slot_word(speed_raw: u8, entries: u8) -> u32 {
    (entries % 32 * 0x800_0000 + speed_raw % 16 * 0x1_0000) as u32
}

/// Describes a slot.
pub open spec fn plan_slot_context(
    deeds: Seq<Deed>,
    input: u64,
    speed_raw: u8,
    port: u8,
    entries: u8,
) -> Planned<()> {
    plan_store(deeds, input + 32, to_le32(slot_word(speed_raw, entries))).and_then(
        |u: (), deeds: Seq<Deed>|
            plan_store(deeds, input + 36, to_le32((port * 0x1_0000) as u32)).and_then(
                |u: (), deeds: Seq<Deed>|
                    plan_store(deeds, input + 40, to_le32(0)).and_then(
                        |u: (), deeds: Seq<Deed>| plan_store(deeds, input + 44, to_le32(0)),
                    ),
            ),
    )
}

/// The second word of an endpoint's context: packet size, burst, type, and three tries.
pub open spec fn endpoint_word(e: EndpointContext) -> u32 {
    (e.max_packet * 0x1_0000 + e.burst * 0x100 + e.ep_type % 8 * 8 + 6) as u32
}

/// Describes an endpoint, `offset` bytes into the context.
#[verifier::opaque]
pub open spec fn plan_endpoint(
    deeds: Seq<Deed>,
    input: u64,
    offset: int,
    e: EndpointContext,
) -> Planned<()> {
    plan_store(deeds, input + offset, to_le32((e.interval * 0x1_0000) as u32)).and_then(
        |u: (), deeds: Seq<Deed>|
            plan_store(deeds, input + offset + 4, to_le32(endpoint_word(e))).and_then(
                |u: (), deeds: Seq<Deed>|
                    plan_store(
                        deeds,
                        input + offset + 8,
                        to_le64((e.dequeue - e.dequeue % 16 + e.dequeue % 2) as u64),
                    ).and_then(
                        |u: (), deeds: Seq<Deed>|
                            plan_store(
                                deeds,
                                input + offset + 16,
                                to_le32((e.payload * 0x1_0000 + e.average) as u32),
                            ),
                    ),
            ),
    )
}

/// Where an endpoint's context is among those that describe changes: behind the control context.
pub open spec fn input_place(dci: u8, is_64: bool) -> int {
    32 + dci * stride_of(is_64)
}

/// The contexts of different endpoints, and that of the slot, do not overlap, and all fit.
pub proof fn law_contexts_do_not_overlap(a: u8, b: u8, is_64: bool)
    requires
        1 <= a < b < 32,
    ensures
        input_place(a, is_64) + 20 <= input_place(b, is_64),
        48 <= input_place(a, is_64),
        input_place(b, is_64) + 20 <= INPUT_CONTEXT_BYTES,
{
}

/// Where an endpoint's context is.
pub(crate) fn input_ep_offset(dci: u8, is_64: bool) -> (offset: u32)
    ensures
        offset == input_place(dci, is_64),
        offset <= 0x1_0000,
{
    32 + device_context_offset(dci, is_64)
}

pub(crate) fn write_input_control(plan: &mut Plan, input: u64, flags: u32) -> (r: Result<
    (),
    XhciError,
>)
    ensures
        (Planned { result: r, deeds: final(plan)@ }) == plan_input_control(
            old(plan)@,
            input,
            flags,
        ),
{
    plan.store_u32(input, 0, 0)?;
    plan.store_u32(input, 4, flags)
}

pub(crate) fn write_slot_context(
    plan: &mut Plan,
    input: u64,
    speed_raw: u8,
    port: u8,
    entries: u8,
) -> (r: Result<(), XhciError>)
    ensures
        (Planned { result: r, deeds: final(plan)@ }) == plan_slot_context(
            old(plan)@,
            input,
            speed_raw,
            port,
            entries,
        ),
{
    let word: u32 = (entries % 32) as u32 * 0x800_0000 + (speed_raw % 16) as u32 * 0x1_0000;
    plan.store_u32(input, 32, word)?;
    plan.store_u32(input, 36, port as u32 * 0x1_0000)?;
    plan.store_u32(input, 40, 0)?;
    plan.store_u32(input, 44, 0)
}

pub(crate) fn write_ep_context(plan: &mut Plan, input: u64, offset: u32, e: EndpointContext) -> (r:
    Result<(), XhciError>)
    requires
        offset <= 0x1_0000,
    ensures
        (Planned { result: r, deeds: final(plan)@ }) == plan_endpoint(
            old(plan)@,
            input,
            offset as int,
            e,
        ),
{
    reveal(plan_endpoint);
    let at: u64 = offset as u64;
    let word: u32 = e.max_packet as u32 * 0x1_0000 + e.burst as u32 * 0x100 + (e.ep_type % 8) as u32
        * 8 + 6;
    plan.store_u32(input, at, e.interval as u32 * 0x1_0000)?;
    plan.store_u32(input, at + 4, word)?;
    plan.store_u64(input, at + 8, e.dequeue - e.dequeue % 16 + e.dequeue % 2)?;
    plan.store_u32(input, at + 16, e.payload as u32 * 0x1_0000 + e.average as u32)
}

/// The command that changes the context of an endpoint.
fn encode_evaluate_context(input: u64, slot: u8) -> (trb: [u8; 16])
    ensures
        trb@ == evaluate_entry(input, slot),
{
    put_trb(input, 0, trb_control(TYPE_EVALUATE_CONTEXT, 0) + slot as u32 * 0x100_0000)
}

/// The command that changes the context of an endpoint.
pub open spec fn evaluate_entry(input: u64, slot: u8) -> Seq<u8> {
    trb_of(input, 0, control_word(TYPE_EVALUATE_CONTEXT, 0, slot * 0x100_0000))
}

/// The command that asks for a slot.
pub open spec fn enable_entry() -> Seq<u8> {
    trb_of(0, 0, control_word(TYPE_ENABLE_SLOT, 0, 0))
}

/// The command that gives a device its address.
pub open spec fn address_entry(input: u64, slot: u8) -> Seq<u8> {
    trb_of(input, 0, control_word(TYPE_ADDRESS_DEVICE, 0, slot * 0x100_0000))
}

/// The control endpoint with packets of a size.
pub open spec fn control_endpoint(max_packet: u16, dequeue: u64) -> EndpointContext {
    EndpointContext {
        max_packet,
        interval: 0,
        burst: 0,
        ep_type: EP_TYPE_CONTROL,
        dequeue,
        average: 8,
        payload: max_packet,
    }
}

/// What the next answer is about.
#[derive(Clone, Copy, Debug, PartialEq, Eq, Structural)]
pub enum AddressStage {
    /// The register of the port, before its reset.
    Port,
    Deadline,
    /// The register of the port, until it is ready.
    Watch(u64),
    Pause(u64),
    /// The register of the port, for the speed.
    Speed,
    Enable,
    Output,
    Ring,
    Input,
    Address,
    Buffer,
    Describe,
    Descriptor,
    Evaluation,
    Evaluate,
}

/// A device that is being given an address.
#[derive(Clone, Copy, Debug, PartialEq, Eq, Structural)]
pub struct Addressing {
    pub port: u8,
    pub speed: UsbSpeed,
    pub speed_raw: u8,
    pub packet: u16,
    pub slot: u8,
    pub ep0: TransferRing,
    pub buffer: u64,
    pub wait: EventWait,
    pub stage: AddressStage,
}

/// The next state, or the device when it has an address.
pub type Next = (Addressing, Option<Addressed>);

/// Goes on to a stage.
pub open spec fn go(c: XhciController, a: Addressing, deeds: Seq<Deed>, stage: AddressStage) -> Run<
    XhciController,
    Next,
> {
    run(c, decided(deeds, Ok((Addressing { stage, ..a }, None))))
}

/// Goes on to a stage once something is planned.
pub open spec fn go_after(
    c: XhciController,
    a: Addressing,
    planned: Planned<()>,
    stage: AddressStage,
) -> Run<XhciController, Next> {
    run(c, planned).and_then(
        |u: (), c: XhciController, deeds: Seq<Deed>| go(c, a, deeds, stage),
    )
}

/// Sends a command and waits for its end in a stage.
pub open spec fn send(
    c: XhciController,
    a: Addressing,
    deeds: Seq<Deed>,
    trb: Seq<u8>,
    slot: u8,
    stage: AddressStage,
) -> Run<XhciController, Next> {
    command_step(c, deeds, trb).and_then(
        |place: u64, c: XhciController, deeds: Seq<Deed>|
            go(
                c,
                Addressing { wait: new_wait(place, Awaited::Command { slot }), ..a },
                deeds.push(Deed::Time),
                stage,
            ),
    )
}

/// The device, which has packets of a size.
pub open spec fn finish(c: XhciController, a: Addressing, deeds: Seq<Deed>, packet: u16) -> Run<
    XhciController,
    Next,
> {
    run(
        c,
        decided(
            deeds,
            Ok(
                (
                    a,
                    Some(
                        Addressed {
                            handle: DeviceHandle {
                                slot_id: a.slot,
                                root_port: a.port,
                                speed: a.speed,
                            },
                            speed_raw: a.speed_raw,
                            ep0_max_packet: packet,
                            ep0: a.ep0,
                        },
                    ),
                ),
            ),
        ),
    )
}

/// What follows a register of the port.
pub open spec fn after_word(c: XhciController, a: Addressing, word: u32, deeds: Seq<Deed>) -> Run<
    XhciController,
    Next,
> {
    match a.stage {
        AddressStage::Port => run(c, plan_write_portsc(c, deeds, a.port, resetting(word))).and_then(
            |u: (), c: XhciController, deeds: Seq<Deed>|
                go(c, a, deeds.push(Deed::Time), AddressStage::Deadline),
        ),
        AddressStage::Watch(deadline) => if is_ready(word) {
            run(c, plan_write_portsc(c, deeds, a.port, word)).and_then(
                |u: (), c: XhciController, deeds: Seq<Deed>|
                    go_after(c, a, plan_read_portsc(c, deeds, a.port), AddressStage::Speed),
            )
        } else {
            go(c, a, deeds.push(Deed::Time), AddressStage::Pause(deadline))
        },
        AddressStage::Speed => match speed_of((word / 1024 % 16) as int) {
            Err(e) => run(c, decided(deeds, Err(e))),
            Ok(speed) => run(c, plan_event_ring(c, deeds)).and_then(
                |u: (), c: XhciController, deeds: Seq<Deed>|
                    send(
                        c,
                        Addressing {
                            speed,
                            speed_raw: (word / 1024 % 16) as u8,
                            packet: first_packet(speed),
                            ..a
                        },
                        deeds,
                        enable_entry(),
                        0,
                        AddressStage::Enable,
                    ),
            ),
        },
        _ => run(c, decided(deeds, Err(XhciError::InvalidRegister))),
    }
}

/// What follows when memory is given out.
pub open spec fn after_memory(
    c: XhciController,
    a: Addressing,
    address: u64,
    deeds: Seq<Deed>,
) -> Run<
    XhciController,
    Next,
> {
    match a.stage {
        AddressStage::Output => run(
            c,
            plan_store(deeds, c.dcbaa_phys + a.slot * 8, to_le64(address)),
        ).and_then(
            |u: (), c: XhciController, deeds: Seq<Deed>|
                go(
                    c,
                    a,
                    deeds.push(Deed::Allocate { size: RING_SEGMENT_BYTES, align: 64 }),
                    AddressStage::Ring,
                ),
        ),
        AddressStage::Ring => run(c, ring_step(deeds, address)).and_then(
            |ring: TransferRing, c: XhciController, deeds: Seq<Deed>|
                go(
                    c,
                    Addressing { ep0: ring, ..a },
                    deeds.push(Deed::Allocate { size: INPUT_CONTEXT_BYTES, align: 64 }),
                    AddressStage::Input,
                ),
        ),
        AddressStage::Input => run(c, describe_device(c, a, deeds, address)).and_then(
            |u: (), c: XhciController, deeds: Seq<Deed>|
                send(c, a, deeds, address_entry(address, a.slot), a.slot, AddressStage::Address),
        ),
        AddressStage::Buffer => if !directly_mapped(address as int, START_BYTES as int) {
            run(c, decided(deeds, Err(XhciError::InvalidRegister)))
        } else {
            ask_descriptor(c, Addressing { buffer: address, ..a }, deeds)
        },
        AddressStage::Evaluation => run(c, describe_packet(c, a, deeds, address)).and_then(
            |u: (), c: XhciController, deeds: Seq<Deed>|
                send(c, a, deeds, evaluate_entry(address, a.slot), a.slot, AddressStage::Evaluate),
        ),
        _ => run(c, decided(deeds, Err(XhciError::InvalidRegister))),
    }
}

/// Asks the device for the start of its descriptor.
pub open spec fn ask_descriptor(c: XhciController, a: Addressing, deeds: Seq<Deed>) -> Run<
    XhciController,
    Next,
> {
    let asked = control_step(
        c,
        a.ep0,
        a.slot,
        deeds,
        GET_DESCRIPTOR_8@,
        Some(DataStage { dir_in: true, phys: a.buffer, len: 8 }),
    );
    (Run { state: c, deeds: asked.deeds, result: asked.result }).and_then(
        |wait: EventWait, c: XhciController, deeds: Seq<Deed>|
            go(c, Addressing { ep0: asked.state, wait, ..a }, deeds, AddressStage::Describe),
    )
}

/// Describes the slot and the control endpoint.
pub open spec fn describe_device(
    c: XhciController,
    a: Addressing,
    deeds: Seq<Deed>,
    input: u64,
) -> Planned<
    (),
> {
    plan_input_control(deeds, input, 3).and_then(
        |u: (), deeds: Seq<Deed>|
            plan_slot_context(deeds, input, a.speed_raw, a.port, 1).and_then(
                |u: (), deeds: Seq<Deed>|
                    plan_endpoint(
                        deeds,
                        input,
                        input_place(1, c.caps.context_64),
                        control_endpoint(a.packet, (a.ep0.phys - a.ep0.phys % 2 + 1) as u64),
                    ),
            ),
    )
}

/// Describes the control endpoint anew.
pub open spec fn describe_packet(
    c: XhciController,
    a: Addressing,
    deeds: Seq<Deed>,
    input: u64,
) -> Planned<
    (),
> {
    plan_input_control(deeds, input, 2).and_then(
        |u: (), deeds: Seq<Deed>|
            match idle_place(a.ep0) {
                Err(e) => decided(deeds, Err(e)),
                Ok(dequeue) => plan_endpoint(
                    deeds,
                    input,
                    input_place(1, c.caps.context_64),
                    control_endpoint(a.packet, dequeue),
                ),
            },
    )
}

/// What follows when a command or a transfer has ended.
pub open spec fn after_wait(c: XhciController, a: Addressing, slot: u8, deeds: Seq<Deed>) -> Run<
    XhciController,
    Next,
> {
    match a.stage {
        AddressStage::Enable => if slot == 0 {
            run(c, decided(deeds, Err(XhciError::InvalidSlot)))
        } else {
            go(
                c,
                Addressing { slot, ..a },
                deeds.push(Deed::Allocate { size: OUTPUT_CONTEXT_BYTES, align: 64 }),
                AddressStage::Output,
            )
        },
        AddressStage::Address => go(
            c,
            a,
            deeds.push(Deed::Allocate { size: DESCRIPTOR_BYTES, align: 64 }),
            AddressStage::Buffer,
        ),
        AddressStage::Describe => go_after(
            c,
            a,
            plan_load_start(deeds, a.buffer),
            AddressStage::Descriptor,
        ),
        _ => finish(c, a, deeds, a.packet),
    }
}

/// Reads the start of a descriptor.
pub open spec fn plan_load_start(deeds: Seq<Deed>, address: u64) -> Planned<()> {
    if directly_mapped(address as int, START_BYTES as int) {
        also(deeds, Deed::LoadStart { address })
    } else {
        decided(deeds, Err(XhciError::InvalidRegister))
    }
}

/// Whether a device tells a packet size that is valid and new.
pub open spec fn tells_size(packet: u16, told: u8) -> bool {
    told != packet && (told == 8 || told == 16 || told == 32 || told == 64)
}

/// What follows the start of the descriptor, whose last byte is the packet size.
pub open spec fn after_descriptor(
    c: XhciController,
    a: Addressing,
    entry: Seq<u8>,
    deeds: Seq<Deed>,
) -> Run<XhciController, Next> {
    if tells_size(a.packet, entry[7]) {
        go(
            c,
            Addressing { packet: entry[7] as u16, ..a },
            deeds.push(Deed::Allocate { size: INPUT_CONTEXT_BYTES, align: 64 }),
            AddressStage::Evaluation,
        )
    } else {
        finish(c, a, deeds, a.packet)
    }
}

/// Whether a stage waits for a command or a transfer.
pub open spec fn waits(stage: AddressStage) -> bool {
    stage is Enable || stage is Address || stage is Describe || stage is Evaluate
}

/// What follows an answer.
#[verifier::opaque]
pub open spec fn address_step(
    c: XhciController,
    a: Addressing,
    answer: Answer,
    deeds: Seq<Deed>,
) -> Run<
    XhciController,
    Next,
> {
    if waits(a.stage) {
        wait_step(c, a.wait, answer, deeds).and_then(
            |waited: Waited, c: XhciController, deeds: Seq<Deed>|
                match waited {
                    (wait, None) => go(c, Addressing { wait, ..a }, deeds, a.stage),
                    (wait, Some(slot)) => after_wait(c, a, slot, deeds),
                },
        )
    } else {
        match answer {
            Answer::Failed(e) => run(c, decided(deeds, Err(e))),
            Answer::Word(word) => after_word(c, a, word, deeds),
            Answer::Memory { device, .. } => after_memory(c, a, device, deeds),
            Answer::Ticks(ticks) => match a.stage {
                AddressStage::Deadline => go_after(
                    c,
                    a,
                    plan_read_portsc(c, deeds, a.port),
                    AddressStage::Watch(ahead(ticks, 1, c.ticks_per_second)),
                ),
                AddressStage::Pause(deadline) => if ticks >= deadline {
                    run(c, decided(deeds, Err(XhciError::Timeout)))
                } else {
                    go_after(
                        c,
                        a,
                        plan_read_portsc(c, deeds, a.port),
                        AddressStage::Watch(deadline),
                    )
                },
                _ => run(c, decided(deeds, Err(XhciError::InvalidRegister))),
            },
            Answer::Start(entry) => if a.stage is Descriptor {
                after_descriptor(c, a, entry@, deeds)
            } else {
                run(c, decided(deeds, Err(XhciError::InvalidRegister)))
            },
            _ => run(c, decided(deeds, Err(XhciError::InvalidRegister))),
        }
    }
}

/// A device that is about to be given an address.
pub open spec fn new_addressing(port: u8) -> Addressing {
    Addressing {
        port,
        speed: UsbSpeed::Full,
        speed_raw: 0,
        packet: 0,
        slot: 0,
        ep0: TransferRing { phys: 0, enqueue: 0, cycle: true },
        buffer: 0,
        wait: new_wait(0, Awaited::Command { slot: 0 }),
        stage: AddressStage::Port,
    }
}

/// What a part returns, leaves and plans. Where it failed, how far it had come does not matter.
pub open spec fn follows(
    r: Result<Option<Addressed>, XhciError>,
    c: XhciController,
    a: Addressing,
    deeds: Seq<Deed>,
    step: Run<XhciController, Next>,
) -> bool {
    &&& c == step.state
    &&& deeds == step.deeds
    &&& match step.result {
        Ok((next, done)) => r == Ok::<_, XhciError>(done) && a == next,
        Err(e) => r == Err::<Option<Addressed>, _>(e),
    }
}

impl XhciController {
    /// Begins to give the device at a port an address.
    pub fn reset_and_address(&self, port: u8, plan: &mut Plan) -> (r: Result<Addressing, XhciError>)
        ensures
            final(plan)@ == plan_read_portsc(*self, old(plan)@, port).deeds,
            match plan_read_portsc(*self, old(plan)@, port).result {
                Ok(()) => r == Ok::<_, XhciError>(new_addressing(port)),
                Err(e) => r == Err::<Addressing, _>(e),
            },
    {
        self.read_portsc(port, plan)?;
        let ring = TransferRing { phys: 0, enqueue: 0, cycle: true };
        Ok(
            Addressing {
                port,
                speed: UsbSpeed::Full,
                speed_raw: 0,
                packet: 0,
                slot: 0,
                ep0: ring,
                buffer: 0,
                wait: EventWait {
                    pointer: 0,
                    awaited: Awaited::Command { slot: 0 },
                    deadline: 0,
                    drained: 0,
                    stage: WaitStage::Deadline,
                },
                stage: AddressStage::Port,
            },
        )
    }
}

impl Addressing {
    /// The ring is used within its bounds.
    pub open spec fn wf(self) -> bool {
        self.ep0.wf()
    }

    fn allocate(&mut self, size: usize, stage: AddressStage, plan: &mut Plan) -> (r: Result<
        Option<Addressed>,
        XhciError,
    >)
        ensures
            r == Ok::<Option<Addressed>, XhciError>(None),
            *final(self) == (Addressing { stage, ..*old(self) }),
            final(plan)@ == old(plan)@.push(Deed::Allocate { size, align: 64 }),
    {
        plan.push(Action::Allocate { size, align: 64 });
        self.stage = stage;
        Ok(None)
    }

    fn time(&mut self, stage: AddressStage, plan: &mut Plan) -> (r: Result<
        Option<Addressed>,
        XhciError,
    >)
        ensures
            r == Ok::<Option<Addressed>, XhciError>(None),
            *final(self) == (Addressing { stage, ..*old(self) }),
            final(plan)@ == old(plan)@.push(Deed::Time),
    {
        plan.push(Action::Time);
        self.stage = stage;
        Ok(None)
    }

    fn read_port(
        &mut self,
        controller: &XhciController,
        stage: AddressStage,
        plan: &mut Plan,
    ) -> (r:
        Result<Option<Addressed>, XhciError>)
        ensures
            follows(
                r,
                *controller,
                *final(self),
                final(plan)@,
                go_after(
                    *controller,
                    *old(self),
                    plan_read_portsc(*controller, old(plan)@, old(self).port),
                    stage,
                ),
            ),
            final(self).ep0 == old(self).ep0,
    {
        controller.read_portsc(self.port, plan)?;
        self.stage = stage;
        Ok(None)
    }

    /// Sends a command and waits for its end in a stage.
    fn send(
        &mut self,
        controller: &mut XhciController,
        trb: [u8; 16],
        slot: u8,
        stage: AddressStage,
        plan: &mut Plan,
    ) -> (r: Result<Option<Addressed>, XhciError>)
        requires
            old(controller).wf(),
        ensures
            final(controller).wf(),
            final(self).ep0 == old(self).ep0,
            follows(
                r,
                *final(controller),
                *final(self),
                final(plan)@,
                send(*old(controller), *old(self), old(plan)@, trb@, slot, stage),
            ),
    {
        let place: u64 = controller.command(trb, plan)?;
        self.wait = EventWait::begin(place, Awaited::Command { slot }, plan);
        self.stage = stage;
        Ok(None)
    }

    fn on_word(&mut self, controller: &mut XhciController, word: u32, plan: &mut Plan) -> (r:
        Result<Option<Addressed>, XhciError>)
        requires
            old(controller).wf(),
            old(self).wf(),
        ensures
            final(controller).wf(),
            final(self).wf(),
            follows(
                r,
                *final(controller),
                *final(self),
                final(plan)@,
                after_word(*old(controller), *old(self), word, old(plan)@),
            ),
    {
        match self.stage {
            AddressStage::Port => {
                controller.write_portsc(self.port, with_reset(word), plan)?;
                self.time(AddressStage::Deadline, plan)
            },
            AddressStage::Watch(deadline) => {
                if !ready(word) {
                    return self.time(AddressStage::Pause(deadline), plan);
                }
                controller.write_portsc(self.port, word, plan)?;
                self.read_port(controller, AddressStage::Speed, plan)
            },
            AddressStage::Speed => {
                let speed = UsbSpeed::from_portsc(word)?;
                controller.program_event_ring(plan)?;
                self.speed = speed;
                self.speed_raw = (word / 1024 % 16) as u8;
                self.packet = speed.ep0_initial_max_packet();
                self.send(controller, encode_enable_slot(0), 0, AddressStage::Enable, plan)
            },
            _ => Err(XhciError::InvalidRegister),
        }
    }

    fn on_memory(&mut self, controller: &mut XhciController, address: u64, plan: &mut Plan) -> (r:
        Result<Option<Addressed>, XhciError>)
        requires
            old(controller).wf(),
            old(self).wf(),
        ensures
            final(controller).wf(),
            final(self).wf(),
            follows(
                r,
                *final(controller),
                *final(self),
                final(plan)@,
                after_memory(*old(controller), *old(self), address, old(plan)@),
            ),
    {
        let slot: u8 = self.slot;
        match self.stage {
            AddressStage::Output => {
                plan.store_u64(controller.dcbaa_phys, slot as u64 * 8, address)?;
                self.allocate(RING_SEGMENT_BYTES, AddressStage::Ring, plan)
            },
            AddressStage::Ring => {
                self.ep0 = new_ring(address, plan)?;
                self.allocate(INPUT_CONTEXT_BYTES, AddressStage::Input, plan)
            },
            AddressStage::Input => {
                self.describe_device(controller, address, plan)?;
                let trb = encode_address_device(address, slot, 0);
                self.send(controller, trb, slot, AddressStage::Address, plan)
            },
            AddressStage::Buffer => {
                if direct_address(address, START_BYTES).is_none() {
                    return Err(XhciError::InvalidRegister);
                }
                self.buffer = address;
                self.ask_descriptor(controller, plan)
            },
            AddressStage::Evaluation => {
                self.describe_packet(controller, address, plan)?;
                let trb = encode_evaluate_context(address, slot);
                self.send(controller, trb, slot, AddressStage::Evaluate, plan)
            },
            _ => Err(XhciError::InvalidRegister),
        }
    }

    fn describe_device(&self, controller: &XhciController, input: u64, plan: &mut Plan) -> (r:
        Result<(), XhciError>)
        ensures
            (Planned { result: r, deeds: final(plan)@ }) == describe_device(
                *controller,
                *self,
                old(plan)@,
                input,
            ),
    {
        write_input_control(plan, input, 3)?;
        write_slot_context(plan, input, self.speed_raw, self.port, 1)?;
        let context = EndpointContext {
            max_packet: self.packet,
            interval: 0,
            burst: 0,
            ep_type: EP_TYPE_CONTROL,
            dequeue: self.ep0.phys - self.ep0.phys % 2 + 1,
            average: 8,
            payload: self.packet,
        };
        write_ep_context(plan, input, input_ep_offset(1, controller.caps.context_64), context)
    }

    fn describe_packet(&self, controller: &XhciController, input: u64, plan: &mut Plan) -> (r:
        Result<(), XhciError>)
        ensures
            (Planned { result: r, deeds: final(plan)@ }) == describe_packet(
                *controller,
                *self,
                old(plan)@,
                input,
            ),
    {
        write_input_control(plan, input, 2)?;
        let dequeue: u64 = self.ep0.idle_dequeue()?;
        let context = EndpointContext {
            max_packet: self.packet,
            interval: 0,
            burst: 0,
            ep_type: EP_TYPE_CONTROL,
            dequeue,
            average: 8,
            payload: self.packet,
        };
        write_ep_context(plan, input, input_ep_offset(1, controller.caps.context_64), context)
    }

    fn ask_descriptor(&mut self, controller: &XhciController, plan: &mut Plan) -> (r: Result<
        Option<Addressed>,
        XhciError,
    >)
        requires
            old(self).wf(),
        ensures
            final(self).wf(),
            follows(
                r,
                *controller,
                *final(self),
                final(plan)@,
                ask_descriptor(*controller, *old(self), old(plan)@),
            ),
    {
        let mut device = self.device(self.packet);
        let data = DataStage { dir_in: true, phys: self.buffer, len: 8 };
        let wait = controller.begin_control(&mut device, GET_DESCRIPTOR_8, Some(data), plan)?;
        self.ep0 = device.ep0;
        self.wait = wait;
        self.stage = AddressStage::Describe;
        Ok(None)
    }

    /// The device, which has packets of a size.
    fn device(&self, packet: u16) -> (device: Addressed)
        ensures
            device == (Addressed {
                handle: DeviceHandle { slot_id: self.slot, root_port: self.port, speed: self.speed },
                speed_raw: self.speed_raw,
                ep0_max_packet: packet,
                ep0: self.ep0,
            }),
    {
        Addressed {
            handle: DeviceHandle { slot_id: self.slot, root_port: self.port, speed: self.speed },
            speed_raw: self.speed_raw,
            ep0_max_packet: packet,
            ep0: self.ep0,
        }
    }

    fn on_wait(&mut self, controller: &XhciController, slot: u8, plan: &mut Plan) -> (r: Result<
        Option<Addressed>,
        XhciError,
    >)
        requires
            old(self).wf(),
        ensures
            final(self).wf(),
            follows(
                r,
                *controller,
                *final(self),
                final(plan)@,
                after_wait(*controller, *old(self), slot, old(plan)@),
            ),
    {
        match self.stage {
            AddressStage::Enable => {
                if slot == 0 {
                    return Err(XhciError::InvalidSlot);
                }
                self.slot = slot;
                self.allocate(OUTPUT_CONTEXT_BYTES, AddressStage::Output, plan)
            },
            AddressStage::Address => self.allocate(DESCRIPTOR_BYTES, AddressStage::Buffer, plan),
            AddressStage::Describe => {
                if direct_address(self.buffer, START_BYTES).is_none() {
                    return Err(XhciError::InvalidRegister);
                }
                plan.push(Action::LoadStart { address: self.buffer });
                self.stage = AddressStage::Descriptor;
                Ok(None)
            },
            _ => Ok(Some(self.device(self.packet))),
        }
    }

    fn on_descriptor(
        &mut self,
        controller: &XhciController,
        entry: &[u8; 8],
        plan: &mut Plan,
    ) -> (r:
        Result<Option<Addressed>, XhciError>)
        requires
            old(self).wf(),
        ensures
            final(self).wf(),
            follows(
                r,
                *controller,
                *final(self),
                final(plan)@,
                after_descriptor(*controller, *old(self), entry@, old(plan)@),
            ),
    {
        let told: u16 = entry[7] as u16;
        if told != self.packet && ep0_max_packet_valid(told) {
            self.packet = told;
            return self.allocate(INPUT_CONTEXT_BYTES, AddressStage::Evaluation, plan);
        }
        Ok(Some(self.device(self.packet)))
    }

    fn is_waiting(&self) -> (r: bool)
        ensures
            r == waits(self.stage),
    {
        match self.stage {
            AddressStage::Enable => true,
            AddressStage::Address => true,
            AddressStage::Describe => true,
            AddressStage::Evaluate => true,
            _ => false,
        }
    }

    /// Goes on with an answer. Gives the device when it has an address and its packet size is
    /// known.
    pub fn resume(
        &mut self,
        controller: &mut XhciController,
        answer: &Answer,
        plan: &mut Plan,
    ) -> (r:
        Result<Option<Addressed>, XhciError>)
        requires
            old(controller).wf(),
            old(self).wf(),
        ensures
            final(controller).wf(),
            final(self).wf(),
            r matches Ok(Some(device)) ==> device.ep0.wf(),
            follows(
                r,
                *final(controller),
                *final(self),
                final(plan)@,
                address_step(*old(controller), *old(self), *answer, old(plan)@),
            ),
    {
        reveal(address_step);
        if self.is_waiting() {
            let mut wait = self.wait;
            return match wait.resume(controller, answer, plan)? {
                None => {
                    self.wait = wait;
                    Ok(None)
                },
                Some(slot) => self.on_wait(controller, slot, plan),
            };
        }
        match answer {
            Answer::Failed(error) => Err(*error),
            Answer::Word(word) => self.on_word(controller, *word, plan),
            Answer::Memory { device, .. } => self.on_memory(controller, *device, plan),
            Answer::Ticks(ticks) => match self.stage {
                AddressStage::Deadline => {
                    let deadline: u64 = deadline_after(*ticks, 1, controller.ticks_per_second);
                    self.read_port(controller, AddressStage::Watch(deadline), plan)
                },
                AddressStage::Pause(deadline) => {
                    if *ticks >= deadline {
                        return Err(XhciError::Timeout);
                    }
                    self.read_port(controller, AddressStage::Watch(deadline), plan)
                },
                _ => Err(XhciError::InvalidRegister),
            },
            Answer::Start(entry) => match self.stage {
                AddressStage::Descriptor => self.on_descriptor(controller, entry, plan),
                _ => Err(XhciError::InvalidRegister),
            },
            _ => Err(XhciError::InvalidRegister),
        }
    }
}

} // verus!
