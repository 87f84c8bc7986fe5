//! Transfers: the rings of a device's endpoints, and what is put on them.
use vstd::prelude::*;

use crate::bytes::to_le32;
use crate::xhci::{
    control_word, encode_data_stage, encode_link, encode_normal, encode_setup_stage,
    encode_status_stage, flag, link_trb, trb_of, BulkData, BulkDirection, ControlData,
    ControlDirection, DeviceHandle, XhciError, FLAG_CHAIN, FLAG_IN, FLAG_IOC, MAX_BULK_BYTES,
    MAX_CONTROL_BYTES, RING_TRBS, SETUP_BYTES, TRB_BYTES, TYPE_DATA, TYPE_NORMAL, TYPE_SETUP,
    TYPE_STATUS,
};
use crate::xhci::controller::{mark_entry, marked_entry, plan_doorbell, run, Run, XhciController};
use crate::xhci::plan::{decided, plan_store, Action, Deed, Plan, Planned};
use crate::xhci::startup::LAST_ENTRY;
use crate::xhci::wait::{new_wait, Awaited, EventWait};

verus! {

/// The command that changes the context of an endpoint.
pub const TYPE_EVALUATE_CONTEXT: u32 = 13;

/// The setup packet travels in the entry itself.
pub const FLAG_IMMEDIATE: u32 = 0x40;

/// Asks a device for the first eight bytes of its descriptor.
pub const GET_DESCRIPTOR_8: [u8; 8] = [0x80, 0x06, 0x00, 0x01, 0x00, 0x00, 0x08, 0x00];

/// A ring of requests for an endpoint. Its last entry links back to its first.
#[derive(Clone, Copy, Debug, PartialEq, Eq, Structural)]
pub struct TransferRing {
    pub phys: u64,
    pub enqueue: usize,
    pub cycle: bool,
}

/// Leaves the end of a ring: renews the link, and starts over with the other mark.
pub open spec fn wrap_step(ring: TransferRing, deeds: Seq<Deed>) -> Run<TransferRing, ()> {
    if ring.enqueue < RING_TRBS - 1 {
        run(ring, decided(deeds, Ok(())))
    } else {
        run(
            ring,
            plan_store(deeds, ring.phys + LAST_ENTRY, link_trb(ring.phys, true, if ring.cycle {
                0
            } else {
                1
            })),
        ).and_then(
            |u: (), ring: TransferRing, deeds: Seq<Deed>|
                Run {
                    state: TransferRing { enqueue: 0, cycle: !ring.cycle, ..ring },
                    deeds,
                    result: Ok(()),
                },
        )
    }
}

/// Puts a request on a ring. Gives the address of its entry.
pub open spec fn push_step(ring: TransferRing, deeds: Seq<Deed>, trb: Seq<u8>) -> Run<
    TransferRing,
    u64,
> {
    wrap_step(ring, deeds).and_then(
        |u: (), ring: TransferRing, deeds: Seq<Deed>|
            run(
                ring,
                plan_store(
                    deeds,
                    ring.phys + ring.enqueue * TRB_BYTES,
                    marked_entry(trb, ring.cycle),
                ),
            ).and_then(
                |u: (), ring: TransferRing, deeds: Seq<Deed>|
                    Run {
                        state: TransferRing { enqueue: (ring.enqueue + 1) as usize, ..ring },
                        deeds: deeds.push(Deed::Fence),
                        result: Ok((ring.phys + ring.enqueue * TRB_BYTES) as u64),
                    },
            ),
    )
}

/// Where the controller goes on with a ring that it has worked off, with the mark of new requests
/// in the lowest bit.
pub open spec fn idle_place(ring: TransferRing) -> Result<u64, XhciError> {
    let place = ring.phys + ring.enqueue * TRB_BYTES;
    if ring.enqueue >= RING_TRBS || place > u64::MAX || place % 16 != 0 {
        Err(XhciError::InvalidRegister)
    } else {
        Ok((place + if ring.cycle {
            1int
        } else {
            0
        }) as u64)
    }
}

impl TransferRing {
    /// The place for the next request is in the ring, or at its end.
    pub open spec fn wf(self) -> bool {
        self.enqueue < RING_TRBS
    }

    /// Puts a request on the ring. Gives the address of its entry.
    pub fn push(&mut self, trb: [u8; 16], plan: &mut Plan) -> (r: Result<u64, XhciError>)
        requires
            old(self).wf(),
        ensures
            final(self).wf(),
            (Run { state: *final(self), deeds: final(plan)@, result: r }) == push_step(
                *old(self),
                old(plan)@,
                trb@,
            ),
    {
        if self.enqueue >= RING_TRBS - 1 {
            let link = encode_link(self.phys, true, if self.cycle {
                0
            } else {
                1
            });
            plan.store(self.phys, LAST_ENTRY, &link)?;
            self.enqueue = 0;
            self.cycle = !self.cycle;
        }
        let mut entry = trb;
        mark_entry(&mut entry, self.cycle);
        let offset: u64 = self.enqueue as u64 * 16;
        plan.store(self.phys, offset, &entry)?;
        plan.push(Action::Fence);
        self.enqueue = self.enqueue + 1;
        Ok(self.phys + offset)
    }

    /// Where the controller goes on with a ring that it has worked off.
    pub fn idle_dequeue(&self) -> (r: Result<u64, XhciError>)
        ensures
            r == idle_place(*self),
    {
        if self.enqueue >= RING_TRBS {
            return Err(XhciError::InvalidRegister);
        }
        let place: u64 = match self.phys.checked_add(self.enqueue as u64 * 16) {
            Some(place) => place,
            None => return Err(XhciError::InvalidRegister),
        };
        if place % 16 != 0 {
            return Err(XhciError::InvalidRegister);
        }
        if self.cycle {
            Ok(place + 1)
        } else {
            Ok(place)
        }
    }
}

/// A ring in new memory, with its link. The memory must be aligned.
pub open spec fn ring_step(deeds: Seq<Deed>, address: u64) -> Planned<TransferRing> {
    if address % 64 != 0 {
        decided(deeds, Err(XhciError::Allocation))
    } else {
        plan_store(deeds, address + LAST_ENTRY, link_trb(address, true, 1)).and_then(
            |u: (), deeds: Seq<Deed>|
                decided(deeds, Ok(TransferRing { phys: address, enqueue: 0, cycle: true })),
        )
    }
}

/// A ring in new memory.
pub fn new_ring(address: u64, plan: &mut Plan) -> (r: Result<TransferRing, XhciError>)
    ensures
        (Planned { result: r, deeds: final(plan)@ }) == ring_step(old(plan)@, address),
        r matches Ok(ring) ==> ring.wf(),
{
    if address % 64 != 0 {
        return Err(XhciError::Allocation);
    }
    let link = encode_link(address, true, 1);
    plan.store(address, LAST_ENTRY, &link)?;
    Ok(TransferRing { phys: address, enqueue: 0, cycle: true })
}

/// A request lies in its ring: at a place before the link.
pub proof fn law_requests_stay_in_their_ring(ring: TransferRing, deeds: Seq<Deed>, trb: Seq<u8>)
    requires
        ring.wf(),
        trb.len() == TRB_BYTES,
    ensures
        push_step(ring, deeds, trb).result matches Ok(place) ==> ring.phys <= place && place
            + TRB_BYTES <= ring.phys + LAST_ENTRY,
        push_step(ring, deeds, trb).state.phys == ring.phys,
{
}

/// A device that has an address: its slot, its speed, and the ring of its control endpoint.
#[derive(Clone, Copy, Debug, PartialEq, Eq, Structural)]
pub struct Addressed {
    pub handle: DeviceHandle,
    pub speed_raw: u8,
    pub ep0_max_packet: u16,
    pub ep0: TransferRing,
}

/// An endpoint that was set up.
#[derive(Clone, Copy, Debug, PartialEq, Eq, Structural)]
pub struct EndpointEntry {
    pub dci: u8,
    pub dir_in: bool,
    pub ring: TransferRing,
}

/// A device and the endpoints that were set up.
pub struct UsbDevice {
    pub device: Addressed,
    pub endpoints: Vec<EndpointEntry>,
}

impl UsbDevice {
    /// The rings are used within their bounds.
    pub open spec fn wf(self) -> bool {
        &&& self.device.ep0.wf()
        &&& forall|i: int|
            0 <= i < self.endpoints@.len() ==> (#[trigger] self.endpoints@[i]).ring.wf()
    }

    /// A device with no endpoint but the one for control.
    pub fn new(device: Addressed) -> (r: UsbDevice)
        ensures
            r.device == device,
            r.endpoints@ == Seq::<EndpointEntry>::empty(),
    {
        UsbDevice { device, endpoints: Vec::new() }
    }
}

/// The data of a control transfer: its direction, its address, its length.
pub struct DataStage {
    pub dir_in: bool,
    pub phys: u64,
    pub len: usize,
}

/// The entry with a setup packet.
pub open spec fn setup_entry(setup: Seq<u8>, length: usize) -> Seq<u8> {
    setup + to_le32(length as u32) + to_le32(
        control_word(TYPE_SETUP, 0, SETUP_BYTES + FLAG_CHAIN + FLAG_IMMEDIATE),
    )
}

/// The entry with the data.
pub open spec fn data_entry(data: DataStage) -> Seq<u8> {
    trb_of(
        data.phys,
        (data.len % 0x2_0000) as u32,
        control_word(TYPE_DATA, 0, flag(data.dir_in, FLAG_IN) + FLAG_CHAIN),
    )
}

/// The entry that ends a control transfer: it is the last, and its end is reported.
pub open spec fn status_entry(dir_in: bool) -> Seq<u8> {
    trb_of(0, flag(!dir_in, FLAG_IN) as u32, control_word(TYPE_STATUS, 0, FLAG_IOC as int))
}

/// Puts a control transfer on a ring: a setup packet, perhaps data, and the end.
pub open spec fn control_entries(
    ring: TransferRing,
    deeds: Seq<Deed>,
    setup: Seq<u8>,
    data: Option<DataStage>,
) -> Run<TransferRing, u64> {
    push_step(
        ring,
        deeds,
        setup_entry(setup, if let Some(data) = data {
            data.len
        } else {
            0
        }),
    ).and_then(
        |place: u64, ring: TransferRing, deeds: Seq<Deed>|
            match data {
                Some(data) => push_step(ring, deeds, data_entry(data)).and_then(
                    |place: u64, ring: TransferRing, deeds: Seq<Deed>|
                        push_step(ring, deeds, status_entry(data.dir_in)),
                ),
                None => push_step(ring, deeds, status_entry(false)),
            },
    )
}

/// Begins a control transfer.
#[verifier::opaque]
pub open spec fn control_step(
    c: XhciController,
    ring: TransferRing,
    slot: u8,
    deeds: Seq<Deed>,
    setup: Seq<u8>,
    data: Option<DataStage>,
) -> Run<TransferRing, EventWait> {
    if data is Some && data->0.len > MAX_CONTROL_BYTES {
        run(ring, decided(deeds, Err(XhciError::TransferFailed(0))))
    } else {
        control_entries(ring, deeds, setup, data).and_then(
            |place: u64, ring: TransferRing, deeds: Seq<Deed>|
                run(ring, plan_doorbell(c, deeds, slot, 1)).and_then(
                    |u: (), ring: TransferRing, deeds: Seq<Deed>|
                        run(
                            ring,
                            decided(
                                deeds.push(Deed::Time),
                                Ok(new_wait(place, Awaited::Transfer { slot, endpoint: 1 })),
                            ),
                        ),
                ),
        )
    }
}

/// The entry with a setup packet.
fn encode_setup(setup: [u8; 8], length: usize) -> (trb: [u8; 16])
    requires
        length <= MAX_CONTROL_BYTES,
    ensures
        trb@ == setup_entry(setup@, length),
{
    let mut trb = encode_setup_stage(setup, length as u16);
    let ghost plain = control_word(TYPE_SETUP, 0, SETUP_BYTES as int);
    let ghost flagged = control_word(TYPE_SETUP, 0, SETUP_BYTES + FLAG_CHAIN + FLAG_IMMEDIATE);
    assert(plain == 0x8_0800 && flagged == 0x8_0850);
    assert(trb@[12] == to_le32(plain)[0]);
    trb[12] = trb[12] + 0x50;
    assert(trb@ =~= setup_entry(setup@, length));
    trb
}

/// The entry that ends a control transfer.
fn encode_status(dir_in: bool) -> (trb: [u8; 16])
    ensures
        trb@ == status_entry(dir_in),
{
    let mut trb = encode_status_stage(dir_in, 0);
    let ghost plain = control_word(TYPE_STATUS, 0, FLAG_CHAIN as int);
    let ghost last = control_word(TYPE_STATUS, 0, FLAG_IOC as int);
    assert(plain == 0x1010 && last == 0x1020);
    assert(trb@[12] == to_le32(plain)[0]);
    trb[12] = trb[12] + 0x10;
    assert(trb@ =~= status_entry(dir_in));
    trb
}

/// Puts a control transfer on a ring. Gives the address of its last entry.
fn push_control(
    ring: &mut TransferRing,
    setup: [u8; 8],
    data: &Option<DataStage>,
    plan: &mut Plan,
) -> (r: Result<u64, XhciError>)
    requires
        old(ring).wf(),
        *data matches Some(data) ==> data.len <= MAX_CONTROL_BYTES,
    ensures
        final(ring).wf(),
        (Run { state: *final(ring), deeds: final(plan)@, result: r }) == control_entries(
            *old(ring),
            old(plan)@,
            setup@,
            *data,
        ),
{
    match data {
        Some(data) => {
            ring.push(encode_setup(setup, data.len), plan)?;
            ring.push(encode_data_stage(data.phys, data.len, data.dir_in, true), plan)?;
            ring.push(encode_status(data.dir_in), plan)
        },
        None => {
            ring.push(encode_setup(setup, 0), plan)?;
            ring.push(encode_status(false), plan)
        },
    }
}

/// The endpoint with an index.
pub open spec fn endpoint_at(endpoints: Seq<EndpointEntry>, dci: u8, from: int) -> Option<int>
    decreases endpoints.len() - from,
{
    if from < 0 || from >= endpoints.len() {
        None
    } else if endpoints[from].dci == dci {
        Some(from)
    } else {
        endpoint_at(endpoints, dci, from + 1)
    }
}

/// Begins a transfer of one request on an endpoint.
pub open spec fn normal_step(
    c: XhciController,
    endpoints: Seq<EndpointEntry>,
    slot: u8,
    deeds: Seq<Deed>,
    dci: u8,
    data: DataStage,
) -> Run<Seq<EndpointEntry>, EventWait> {
    let found = endpoint_at(endpoints, dci, 0);
    if data.len < 1 || data.len > MAX_BULK_BYTES {
        run(endpoints, decided(deeds, Err(XhciError::TransferFailed(0))))
    } else if found is None {
        run(endpoints, decided(deeds, Err(XhciError::InvalidSlot)))
    } else if endpoints[found->0].dir_in != data.dir_in {
        run(endpoints, decided(deeds, Err(XhciError::TransferFailed(0))))
    } else {
        let i = found->0;
        let entry = endpoints[i];
        let pushed = push_step(
            entry.ring,
            deeds,
            trb_of(
                data.phys,
                (data.len % 0x2_0000) as u32,
                control_word(TYPE_NORMAL, 0, FLAG_IOC as int),
            ),
        );
        let after = endpoints.update(i, EndpointEntry { ring: pushed.state, ..entry });
        (Run { state: after, deeds: pushed.deeds, result: pushed.result }).and_then(
            |place: u64, endpoints: Seq<EndpointEntry>, deeds: Seq<Deed>|
                run(endpoints, plan_doorbell(c, deeds, slot, dci)).and_then(
                    |u: (), endpoints: Seq<EndpointEntry>, deeds: Seq<Deed>|
                        run(
                            endpoints,
                            decided(
                                deeds.push(Deed::Time),
                                Ok(new_wait(place, Awaited::Transfer { slot, endpoint: dci })),
                            ),
                        ),
                ),
        )
    }
}

/// The data of a control transfer.
pub open spec fn control_stage(data: Option<ControlData>) -> Option<DataStage> {
    match data {
        Some(data) => Some(
            DataStage {
                dir_in: data.direction is In,
                phys: data.device_address,
                len: data.buffer@.len() as usize,
            },
        ),
        None => None,
    }
}

/// The data of any other transfer.
pub open spec fn bulk_stage(data: BulkData) -> DataStage {
    DataStage {
        dir_in: data.direction is In,
        phys: data.device_address,
        len: data.buffer@.len() as usize,
    }
}

/// The data of any other transfer.
fn bulk_data(data: &BulkData<'_>) -> (stage: DataStage)
    ensures
        stage == bulk_stage(*data),
{
    let dir_in: bool = match data.direction {
        BulkDirection::In => true,
        BulkDirection::Out => false,
    };
    DataStage { dir_in, phys: data.device_address, len: data.buffer.len() }
}

impl XhciController {
    /// Begins a control transfer on a device's control endpoint, with at most 4096 bytes of data.
    pub fn control(
        &self,
        device: &mut UsbDevice,
        setup: [u8; 8],
        data: Option<ControlData<'_>>,
        plan: &mut Plan,
    ) -> (r: Result<EventWait, XhciError>)
        requires
            old(device).wf(),
        ensures
            final(device).wf(),
            final(device).endpoints@ == old(device).endpoints@,
            final(device).device == (Addressed {
                ep0: final(device).device.ep0,
                ..old(device).device
            }),
            (Run { state: final(device).device.ep0, deeds: final(plan)@, result: r })
                == control_step(
                *self,
                old(device).device.ep0,
                old(device).device.handle.slot_id,
                old(plan)@,
                setup@,
                control_stage(data),
            ),
    {
        let stage = match &data {
            Some(data) => {
                let dir_in: bool = match data.direction {
                    ControlDirection::In => true,
                    _ => false,
                };
                Some(DataStage { dir_in, phys: data.device_address, len: data.buffer.len() })
            },
            None => None,
        };
        self.begin_control(&mut device.device, setup, stage, plan)
    }

    /// Begins a control transfer on the ring of a control endpoint.
    pub(crate) fn begin_control(
        &self,
        device: &mut Addressed,
        setup: [u8; 8],
        data: Option<DataStage>,
        plan: &mut Plan,
    ) -> (r: Result<EventWait, XhciError>)
        requires
            old(device).ep0.wf(),
        ensures
            final(device).ep0.wf(),
            *final(device) == (Addressed { ep0: final(device).ep0, ..*old(device) }),
            (Run { state: final(device).ep0, deeds: final(plan)@, result: r }) == control_step(
                *self,
                old(device).ep0,
                old(device).handle.slot_id,
                old(plan)@,
                setup@,
                data,
            ),
    {
        reveal(control_step);
        if let Some(stage) = &data {
            if stage.len > MAX_CONTROL_BYTES {
                return Err(XhciError::TransferFailed(0));
            }
        }
        let place: u64 = push_control(&mut device.ep0, setup, &data, plan)?;
        let slot: u8 = device.handle.slot_id;
        self.slot_doorbell(slot, 1, plan)?;
        Ok(EventWait::begin(place, Awaited::Transfer { slot, endpoint: 1 }, plan))
    }

    /// Begins a bulk transfer of at most 65535 bytes.
    pub fn bulk(&self, device: &mut UsbDevice, dci: u8, data: BulkData<'_>, plan: &mut Plan) -> (r:
        Result<EventWait, XhciError>)
        requires
            old(device).wf(),
        ensures
            final(device).wf(),
            final(device).device == old(device).device,
            (Run { state: final(device).endpoints@, deeds: final(plan)@, result: r })
                == normal_step(
                *self,
                old(device).endpoints@,
                old(device).device.handle.slot_id,
                old(plan)@,
                dci,
                bulk_stage(data),
            ),
    {
        self.normal_transfer(device, dci, bulk_data(&data), plan)
    }

    /// Begins an interrupt transfer of as many bytes as the buffer holds.
    pub fn interrupt(
        &self,
        device: &mut UsbDevice,
        dci: u8,
        data: BulkData<'_>,
        plan: &mut Plan,
    ) -> (r:
        Result<EventWait, XhciError>)
        requires
            old(device).wf(),
        ensures
            final(device).wf(),
            final(device).device == old(device).device,
            (Run { state: final(device).endpoints@, deeds: final(plan)@, result: r })
                == normal_step(
                *self,
                old(device).endpoints@,
                old(device).device.handle.slot_id,
                old(plan)@,
                dci,
                bulk_stage(data),
            ),
    {
        self.normal_transfer(device, dci, bulk_data(&data), plan)
    }

    fn normal_transfer(
        &self,
        device: &mut UsbDevice,
        dci: u8,
        data: DataStage,
        plan: &mut Plan,
    ) -> (r:
        Result<EventWait, XhciError>)
        requires
            old(device).wf(),
        ensures
            final(device).wf(),
            final(device).device == old(device).device,
            (Run { state: final(device).endpoints@, deeds: final(plan)@, result: r })
                == normal_step(
                *self,
                old(device).endpoints@,
                old(device).device.handle.slot_id,
                old(plan)@,
                dci,
                data,
            ),
    {
        if data.len < 1 || data.len > MAX_BULK_BYTES {
            return Err(XhciError::TransferFailed(0));
        }
        let index: usize = match find_endpoint(&device.endpoints, dci) {
            Some(index) => index,
            None => return Err(XhciError::InvalidSlot),
        };
        let mut entry: EndpointEntry = device.endpoints[index];
        if entry.dir_in != data.dir_in {
            return Err(XhciError::TransferFailed(0));
        }
        let trb = encode_normal(data.phys, data.len, false, true, 0);
        let pushed = entry.ring.push(trb, plan);
        device.endpoints.set(index, entry);
        let place: u64 = pushed?;
        let slot: u8 = device.device.handle.slot_id;
        self.slot_doorbell(slot, dci, plan)?;
        Ok(EventWait::begin(place, Awaited::Transfer { slot, endpoint: dci }, plan))
    }
}

/// The first endpoint with an index.
fn find_endpoint(endpoints: &Vec<EndpointEntry>, dci: u8) -> (r: Option<usize>)
    ensures
        match r {
            Some(i) => endpoint_at(endpoints@, dci, 0) == Some(i as int) && i < endpoints@.len(),
            None => endpoint_at(endpoints@, dci, 0) is None,
        },
{
    let mut i: usize = 0;
    while i < endpoints.len()
        invariant
            i <= endpoints@.len(),
            endpoint_at(endpoints@, dci, 0) == endpoint_at(endpoints@, dci, i as int),
        decreases endpoints@.len() - i,
    {
        if endpoints[i].dci == dci {
            return Some(i);
        }
        i = i + 1;
    }
    None
}

} // verus!
