//! A controller that runs: its commands, its events and its ports.
use vstd::prelude::*;

use crate::memory::{direct_address, directly_mapped};
use crate::mmio::MapError;
use crate::pci::{XhciCaps, XhciPciDevice};
use crate::xhci::{
    completion, XhciError, OP_USBSTS, RING_TRBS, RT_ERDP, RT_ERSTBA, RT_ERSTSZ, RT_IMAN, TRB_BYTES,
};
use crate::xhci::context::max_slots_en;
use crate::xhci::plan::{
    also, decided, plan_read, plan_store, plan_write, plan_write64, Action, Deed, KernelMmio, Plan,
    Planned,
};
use crate::xhci::port::{connected, is_connected, port_offset, portsc_offset};
use crate::xhci::startup::{enabled_slots, Bases, Stage, Startup, IMAN_IP, USBSTS_EHB};

verus! {

/// A controller that runs: where its registers and its memory are, and how far its rings have
/// been used.
pub struct XhciController {
    pub registers: KernelMmio,
    pub ticks_per_second: u64,
    pub op_base: u32,
    pub db_base: u32,
    pub rt_base: u32,
    pub caps: XhciCaps,
    pub max_slots_en: u8,
    pub max_ports: u8,
    pub scratchpad_count: u16,
    pub dcbaa_phys: u64,
    pub cmd_phys: u64,
    pub cmd_enqueue: usize,
    pub cmd_cycle: bool,
    pub evt_phys: u64,
    pub erst_phys: u64,
    pub evt_dequeue: usize,
    pub evt_cycle: bool,
}

/// What a part of a driver leaves: a state, a plan, and a result.
pub struct Run<S, T> {
    pub state: S,
    pub deeds: Seq<Deed>,
    pub result: Result<T, XhciError>,
}

impl<S, T> Run<S, T> {
    /// Goes on unless the driver failed.
    pub open spec fn and_then<U>(self, next: spec_fn(T, S, Seq<Deed>) -> Run<S, U>) -> Run<S, U> {
        match self.result {
            Ok(value) => next(value, self.state, self.deeds),
            Err(e) => Run { state: self.state, deeds: self.deeds, result: Err(e) },
        }
    }
}

/// A plan that leaves the state as it is.
pub open spec fn run<S, T>(state: S, planned: Planned<T>) -> Run<S, T> {
    Run { state, deeds: planned.deeds, result: planned.result }
}

/// An entry with the mark of new entries.
pub open spec fn marked_entry(trb: Seq<u8>, cycle: bool) -> Seq<u8> {
    trb.update(12, (trb[12] - trb[12] % 2 + if cycle {
        1int
    } else {
        0
    }) as u8)
}

/// Sets the mark of new entries.
pub fn mark_entry(trb: &mut [u8; 16], cycle: bool)
    ensures
        final(trb)@ == marked_entry(old(trb)@, cycle),
{
    let byte: u8 = trb[12] - trb[12] % 2;
    trb[12] = if cycle {
        byte + 1
    } else {
        byte
    };
    assert(trb@ =~= marked_entry(old(trb)@, cycle));
}

/// Reads an entry.
pub open spec fn plan_load(deeds: Seq<Deed>, address: int) -> Planned<()> {
    if directly_mapped(address, TRB_BYTES as int) {
        also(deeds, Deed::Load { address: address as u64 })
    } else {
        decided(deeds, Err(XhciError::InvalidRegister))
    }
}

/// Plans to read the entry with an index.
pub fn load_entry(plan: &mut Plan, base: u64, index: usize) -> (r: Result<(), XhciError>)
    requires
        index <= RING_TRBS,
    ensures
        (Planned { result: r, deeds: final(plan)@ }) == plan_load(
            old(plan)@,
            base + index * TRB_BYTES,
        ),
{
    let address: u64 = match base.checked_add(index as u64 * 16) {
        Some(address) => address,
        None => return Err(XhciError::InvalidRegister),
    };
    if direct_address(address, TRB_BYTES).is_none() {
        return Err(XhciError::InvalidRegister);
    }
    plan.push(Action::Load { address });
    Ok(())
}

/// Whether an entry has the mark of new entries.
pub open spec fn is_new(trb: Seq<u8>, cycle: bool) -> bool {
    (trb[12] % 2 == 1) == cycle
}

/// A controller of which nothing is known yet but what it was found as.
pub open spec fn begun(pci: XhciPciDevice, caps: XhciCaps, ticks_per_second: u64) -> Startup {
    Startup {
        address: pci.address,
        registers: KernelMmio { len: pci.bar.size as usize },
        ticks_per_second,
        caps,
        bases: Bases { op: 0, db: 0, rt: 0 },
        xecp: 0,
        dcbaa: 0,
        dcbaa_cpu: 0,
        cmd: 0,
        evt: 0,
        erst: 0,
        erst_cpu: 0,
        array: 0,
        array_cpu: 0,
        stage: Stage::Window,
    }
}

impl XhciController {
    /// The rings are used within their bounds.
    pub open spec fn wf(self) -> bool {
        self.cmd_enqueue < RING_TRBS && self.evt_dequeue < RING_TRBS
    }

    /// A controller that has just been started.
    pub open spec fn started(s: Startup) -> XhciController {
        XhciController {
            registers: s.registers,
            ticks_per_second: s.ticks_per_second,
            op_base: s.bases.op,
            db_base: s.bases.db,
            rt_base: s.bases.rt,
            caps: s.caps,
            max_slots_en: enabled_slots(s.caps),
            max_ports: s.caps.max_ports,
            scratchpad_count: s.caps.scratchpad_count,
            dcbaa_phys: s.dcbaa,
            cmd_phys: s.cmd,
            cmd_enqueue: 0,
            cmd_cycle: true,
            evt_phys: s.evt,
            erst_phys: s.erst,
            evt_dequeue: 0,
            evt_cycle: true,
        }
    }

    /// A controller that has just been started.
    pub(crate) fn new(s: &Startup) -> (controller: XhciController)
        ensures
            controller == XhciController::started(*s),
            controller.wf(),
    {
        XhciController {
            registers: s.registers,
            ticks_per_second: s.ticks_per_second,
            op_base: s.bases.op,
            db_base: s.bases.db,
            rt_base: s.bases.rt,
            caps: s.caps,
            max_slots_en: max_slots_en(s.caps.max_slots),
            max_ports: s.caps.max_ports,
            scratchpad_count: s.caps.scratchpad_count,
            dcbaa_phys: s.dcbaa,
            cmd_phys: s.cmd,
            cmd_enqueue: 0,
            cmd_cycle: true,
            evt_phys: s.evt,
            erst_phys: s.erst,
            evt_dequeue: 0,
            evt_cycle: true,
        }
    }

    /// Begins to bring a controller up. Its registers are mapped first.
    pub fn initialize(
        pci: XhciPciDevice,
        caps: XhciCaps,
        ticks_per_second: u64,
        plan: &mut Plan,
    ) -> (r:
        Result<Startup, XhciError>)
        ensures
            match r {
                Ok(s) => {
                    &&& 0 < pci.bar.size <= usize::MAX
                    &&& s == begun(pci, caps, ticks_per_second)
                    &&& final(plan)@ == old(plan)@.push(
                        Deed::MapRegisters { base: pci.bar.base, len: pci.bar.size as usize },
                    )
                },
                Err(e) => {
                    &&& pci.bar.size == 0 || pci.bar.size > usize::MAX
                    &&& e == XhciError::Mapping(MapError::InvalidRange)
                    &&& final(plan)@ == old(plan)@
                },
            },
    {
        if pci.bar.size == 0 || pci.bar.size > usize::MAX as u64 {
            return Err(XhciError::Mapping(MapError::InvalidRange));
        }
        let len: usize = pci.bar.size as usize;
        plan.push(Action::MapRegisters { base: pci.bar.base, len });
        Ok(
            Startup {
                address: pci.address,
                registers: KernelMmio::new(len),
                ticks_per_second,
                caps,
                bases: Bases { op: 0, db: 0, rt: 0 },
                xecp: 0,
                dcbaa: 0,
                dcbaa_cpu: 0,
                cmd: 0,
                evt: 0,
                erst: 0,
                erst_cpu: 0,
                array: 0,
                array_cpu: 0,
                stage: Stage::Window,
            },
        )
    }
}

/// Puts a command on the command ring, which does not wrap.
pub open spec fn submit_step(c: XhciController, deeds: Seq<Deed>, trb: Seq<u8>) -> Run<
    XhciController,
    u64,
> {
    let place = c.cmd_phys + c.cmd_enqueue * TRB_BYTES;
    if c.cmd_enqueue >= RING_TRBS - 1 {
        run(c, decided(deeds, Err(XhciError::Allocation)))
    } else {
        run(c, plan_store(deeds, place, marked_entry(trb, c.cmd_cycle))).and_then(
            |u: (), c: XhciController, deeds: Seq<Deed>|
                Run {
                    state: XhciController { cmd_enqueue: (c.cmd_enqueue + 1) as usize, ..c },
                    deeds: deeds.push(Deed::Fence),
                    result: Ok(place as u64),
                },
        )
    }
}

/// Puts a command on the command ring and tells the controller.
pub open spec fn command_step(c: XhciController, deeds: Seq<Deed>, trb: Seq<u8>) -> Run<
    XhciController,
    u64,
> {
    submit_step(c, deeds, trb).and_then(
        |place: u64, c: XhciController, deeds: Seq<Deed>|
            run(c, plan_write(deeds, c.registers.len, c.db_base as int, 0)).and_then(
                |u: (), c: XhciController, deeds: Seq<Deed>|
                    run(c, decided(deeds, Ok(place))),
            ),
    )
}

/// Tells the controller that a slot has something to do for a target.
pub open spec fn plan_doorbell(
    c: XhciController,
    deeds: Seq<Deed>,
    slot: u8,
    target: u8,
) -> Planned<
    (),
> {
    plan_write(deeds, c.registers.len, c.db_base + slot * 4, target as u32)
}

/// Tells the controller where the event ring is.
pub open spec fn plan_event_ring(c: XhciController, deeds: Seq<Deed>) -> Planned<()> {
    let len = c.registers.len;
    if c.rt_base + RT_ERDP > u32::MAX {
        decided(deeds, Err(XhciError::InvalidRegister))
    } else {
        plan_write(deeds.push(Deed::Fence), len, c.rt_base + RT_ERSTSZ, 1).and_then(
            |u: (), deeds: Seq<Deed>|
                plan_write64(deeds, len, c.rt_base + RT_ERDP, c.evt_phys).and_then(
                    |u: (), deeds: Seq<Deed>|
                        plan_write64(deeds, len, c.rt_base + RT_ERSTBA, c.erst_phys),
                ),
        )
    }
}

/// Where an event ring goes on behind an entry: the next, or the first with the other mark.
pub open spec fn next_place(dequeue: usize, cycle: bool) -> (usize, bool) {
    if dequeue + 1 >= RING_TRBS {
        (0, !cycle)
    } else {
        ((dequeue + 1) as usize, cycle)
    }
}

/// Tells the controller how far the events have been taken, and acknowledges them.
pub open spec fn acknowledge_step(
    c: XhciController,
    deeds: Seq<Deed>,
    dequeue: usize,
    cycle: bool,
) -> Run<XhciController, ()> {
    let place = c.evt_phys + dequeue * TRB_BYTES;
    let len = c.registers.len;
    if place > u64::MAX {
        run(c, decided(deeds, Err(XhciError::InvalidRegister)))
    } else {
        run(c, plan_write64(deeds, len, c.rt_base + RT_ERDP, place as u64)).and_then(
            |u: (), c: XhciController, deeds: Seq<Deed>|
                run(c, plan_write(deeds, len, c.op_base + OP_USBSTS, USBSTS_EHB)).and_then(
                    |u: (), c: XhciController, deeds: Seq<Deed>|
                        run(c, plan_write(deeds, len, c.rt_base + RT_IMAN, IMAN_IP)).and_then(
                            |u: (), c: XhciController, deeds: Seq<Deed>|
                                Run {
                                    state: XhciController {
                                        evt_dequeue: dequeue,
                                        evt_cycle: cycle,
                                        ..c
                                    },
                                    deeds,
                                    result: Ok(()),
                                },
                        ),
                ),
        )
    }
}

impl XhciController {
    /// Puts a command on the command ring. Gives the address of its entry, by which its
    /// completion is known.
    pub fn submit_command(&mut self, trb: [u8; 16], plan: &mut Plan) -> (r: Result<u64, XhciError>)
        requires
            old(self).wf(),
        ensures
            final(self).wf(),
            (Run { state: *final(self), deeds: final(plan)@, result: r }) == submit_step(
                *old(self),
                old(plan)@,
                trb@,
            ),
    {
        if self.cmd_enqueue >= RING_TRBS - 1 {
            return Err(XhciError::Allocation);
        }
        let mut entry = trb;
        mark_entry(&mut entry, self.cmd_cycle);
        let offset: u64 = self.cmd_enqueue as u64 * TRB_BYTES as u64;
        plan.store(self.cmd_phys, offset, &entry)?;
        plan.push(Action::Fence);
        self.cmd_enqueue = self.cmd_enqueue + 1;
        Ok(self.cmd_phys + offset)
    }

    /// Tells the controller that there are commands.
    pub fn ring_command_doorbell(&self, plan: &mut Plan) -> (r: Result<(), XhciError>)
        ensures
            (Planned { result: r, deeds: final(plan)@ }) == plan_write(
                old(plan)@,
                self.registers.len,
                self.db_base as int,
                0,
            ),
    {
        self.registers.write(plan, self.db_base, 0, 0)
    }

    /// Puts a command on the command ring and tells the controller.
    pub fn command(&mut self, trb: [u8; 16], plan: &mut Plan) -> (r: Result<u64, XhciError>)
        requires
            old(self).wf(),
        ensures
            final(self).wf(),
            (Run { state: *final(self), deeds: final(plan)@, result: r }) == command_step(
                *old(self),
                old(plan)@,
                trb@,
            ),
    {
        let place: u64 = self.submit_command(trb, plan)?;
        self.ring_command_doorbell(plan)?;
        Ok(place)
    }

    /// Tells the controller that a slot has something to do for a target.
    pub fn slot_doorbell(&self, slot: u8, target: u8, plan: &mut Plan) -> (r: Result<(), XhciError>)
        ensures
            (Planned { result: r, deeds: final(plan)@ }) == plan_doorbell(
                *self,
                old(plan)@,
                slot,
                target,
            ),
    {
        self.registers.write(plan, self.db_base, slot as u32 * 4, target as u32)
    }

    /// Tells the controller where the event ring is.
    pub fn program_event_ring(&self, plan: &mut Plan) -> (r: Result<(), XhciError>)
        ensures
            (Planned { result: r, deeds: final(plan)@ }) == plan_event_ring(*self, old(plan)@),
    {
        if self.rt_base > u32::MAX - RT_ERDP {
            return Err(XhciError::InvalidRegister);
        }
        plan.push(Action::Fence);
        self.registers.write(plan, self.rt_base, RT_ERSTSZ, 1)?;
        self.registers.write64(plan, self.rt_base, RT_ERDP, self.evt_phys)?;
        self.registers.write64(plan, self.rt_base, RT_ERSTBA, self.erst_phys)
    }

    /// Tells the controller how far the events have been taken, and acknowledges them.
    fn acknowledge(&mut self, dequeue: usize, cycle: bool, plan: &mut Plan) -> (r: Result<
        (),
        XhciError,
    >)
        requires
            old(self).wf(),
            dequeue < RING_TRBS,
        ensures
            final(self).wf(),
            (Run { state: *final(self), deeds: final(plan)@, result: r }) == acknowledge_step(
                *old(self),
                old(plan)@,
                dequeue,
                cycle,
            ),
    {
        let place: u64 = match self.evt_phys.checked_add(dequeue as u64 * TRB_BYTES as u64) {
            Some(place) => place,
            None => return Err(XhciError::InvalidRegister),
        };
        self.registers.write64(plan, self.rt_base, RT_ERDP, place)?;
        self.registers.write(plan, self.op_base, OP_USBSTS, USBSTS_EHB)?;
        self.registers.write(plan, self.rt_base, RT_IMAN, IMAN_IP)?;
        self.evt_dequeue = dequeue;
        self.evt_cycle = cycle;
        Ok(())
    }

    /// Takes one event off the ring.
    pub(crate) fn advance_event(&mut self, plan: &mut Plan) -> (r: Result<(), XhciError>)
        requires
            old(self).wf(),
        ensures
            final(self).wf(),
            (Run { state: *final(self), deeds: final(plan)@, result: r }) == advance_step(
                *old(self),
                old(plan)@,
            ),
    {
        let mut dequeue: usize = self.evt_dequeue + 1;
        let mut cycle: bool = self.evt_cycle;
        if dequeue >= RING_TRBS {
            dequeue = 0;
            cycle = !cycle;
        }
        self.acknowledge(dequeue, cycle, plan)
    }
}

/// Takes one event off the ring.
pub open spec fn advance_step(c: XhciController, deeds: Seq<Deed>) -> Run<XhciController, ()> {
    let (dequeue, cycle) = next_place(c.evt_dequeue, c.evt_cycle);
    acknowledge_step(c, deeds, dequeue, cycle)
}

/// The events that are being taken off the ring: how many, and where the next would be.
#[derive(Clone, Copy, Debug, PartialEq, Eq, Structural)]
pub struct Polling {
    pub consumed: usize,
    pub dequeue: usize,
    pub cycle: bool,
}

impl Polling {
    /// Goes on behind an entry.
    pub open spec fn further(self) -> Polling {
        let (dequeue, cycle) = next_place(self.dequeue, self.cycle);
        Polling { consumed: (self.consumed + 1) as usize, dequeue, cycle }
    }
}

/// Ends a poll: acknowledges what was taken, if anything was.
pub open spec fn end_poll(c: XhciController, p: Polling, deeds: Seq<Deed>) -> Run<
    XhciController,
    (Polling, Option<usize>),
> {
    if p.consumed == 0 {
        run(c, decided(deeds, Ok((p, Some(0usize)))))
    } else {
        acknowledge_step(c, deeds, p.dequeue, p.cycle).and_then(
            |u: (), c: XhciController, deeds: Seq<Deed>|
                run(c, decided(deeds, Ok((p, Some(p.consumed))))),
        )
    }
}

/// Goes on with an entry: takes it if it is new. The whole ring may be taken, but not more.
pub open spec fn poll_step(c: XhciController, p: Polling, trb: Seq<u8>, deeds: Seq<Deed>) -> Run<
    XhciController,
    (Polling, Option<usize>),
> {
    if !is_new(trb, p.cycle) {
        end_poll(c, p, deeds)
    } else if p.consumed >= RING_TRBS {
        run(c, decided(deeds, Err(XhciError::TransferFailed(0))))
    } else {
        run(c, plan_load(deeds, c.evt_phys + p.further().dequeue * TRB_BYTES)).and_then(
            |u: (), c: XhciController, deeds: Seq<Deed>|
                run(c, decided(deeds, Ok((p.further(), None)))),
        )
    }
}

impl XhciController {
    /// Begins to take all events off the ring: reads the first entry.
    pub fn poll(&self, plan: &mut Plan) -> (r: Result<Polling, XhciError>)
        requires
            self.wf(),
        ensures
            (Planned { result: r, deeds: final(plan)@ }) == plan_load(
                old(plan)@,
                self.evt_phys + self.evt_dequeue * TRB_BYTES,
            ).and_then(
                |u: (), deeds: Seq<Deed>|
                    decided(
                        deeds,
                        Ok(
                            Polling {
                                consumed: 0,
                                dequeue: self.evt_dequeue,
                                cycle: self.evt_cycle,
                            },
                        ),
                    ),
            ),
    {
        load_entry(plan, self.evt_phys, self.evt_dequeue)?;
        Ok(Polling { consumed: 0, dequeue: self.evt_dequeue, cycle: self.evt_cycle })
    }

    /// Goes on with an entry. Gives the number of events when all have been taken.
    pub fn poll_entry(&mut self, polling: &mut Polling, trb: &[u8; 16], plan: &mut Plan) -> (r:
        Result<Option<usize>, XhciError>)
        requires
            old(self).wf(),
            old(polling).consumed <= RING_TRBS,
            old(polling).dequeue < RING_TRBS,
        ensures
            final(self).wf(),
            final(polling).consumed <= RING_TRBS,
            final(polling).dequeue < RING_TRBS,
            ({
                let step = poll_step(*old(self), *old(polling), trb@, old(plan)@);
                &&& *final(self) == step.state
                &&& final(plan)@ == step.deeds
                &&& match step.result {
                    Ok((next, done)) => r == Ok::<_, XhciError>(done) && *final(polling) == next,
                    Err(e) => r == Err::<Option<usize>, _>(e),
                }
            }),
    {
        if (trb[12] % 2 == 1) != polling.cycle {
            if polling.consumed > 0 {
                self.acknowledge(polling.dequeue, polling.cycle, plan)?;
            }
            return Ok(Some(polling.consumed));
        }
        if polling.consumed >= RING_TRBS {
            return Err(XhciError::TransferFailed(0));
        }
        let mut dequeue: usize = polling.dequeue + 1;
        let mut cycle: bool = polling.cycle;
        if dequeue >= RING_TRBS {
            dequeue = 0;
            cycle = !cycle;
        }
        load_entry(plan, self.evt_phys, dequeue)?;
        polling.consumed = polling.consumed + 1;
        polling.dequeue = dequeue;
        polling.cycle = cycle;
        Ok(None)
    }
}

/// A search for ports with a device: the port whose register is read, and the number of ports
/// found before it.
#[derive(Clone, Copy, Debug, PartialEq, Eq, Structural)]
pub struct PortScan {
    pub port: u8,
    pub count: usize,
}

/// Reads the register of a port.
pub open spec fn plan_read_portsc(c: XhciController, deeds: Seq<Deed>, port: u8) -> Planned<()> {
    match port_offset(c.op_base, port) {
        Ok(offset) => plan_read(deeds, c.registers.len, offset as int),
        Err(e) => decided(deeds, Err(e)),
    }
}

/// Writes the register of a port.
pub open spec fn plan_write_portsc(
    c: XhciController,
    deeds: Seq<Deed>,
    port: u8,
    value: u32,
) -> Planned<()> {
    match port_offset(c.op_base, port) {
        Ok(offset) => plan_write(deeds, c.registers.len, offset as int, value),
        Err(e) => decided(deeds, Err(e)),
    }
}

/// Begins to search the ports.
pub open spec fn scan_start(c: XhciController, deeds: Seq<Deed>) -> Planned<PortScan> {
    if c.max_ports == 0 {
        decided(deeds, Err(XhciError::NoPorts))
    } else {
        plan_read_portsc(c, deeds, 1).and_then(
            |u: (), deeds: Seq<Deed>| decided(deeds, Ok(PortScan { port: 1, count: 0 })),
        )
    }
}

/// What one register adds to a search: the next state, and the ports that were found.
pub open spec fn scan_step(
    c: XhciController,
    scan: PortScan,
    portsc: u32,
    output: Seq<u8>,
    deeds: Seq<Deed>,
) -> (Seq<u8>, Planned<(PortScan, Option<usize>)>) {
    if is_connected(portsc) && scan.count >= output.len() {
        (output, decided(deeds, Err(XhciError::Allocation)))
    } else {
        let (found, count) = if is_connected(portsc) {
            (output.update(scan.count as int, scan.port), (scan.count + 1) as usize)
        } else {
            (output, scan.count)
        };
        let planned = if scan.port < c.max_ports {
            plan_read_portsc(c, deeds, (scan.port + 1) as u8).and_then(
                |u: (), deeds: Seq<Deed>|
                    decided(deeds, Ok((PortScan { port: (scan.port + 1) as u8, count }, None))),
            )
        } else if count == 0 {
            decided(deeds, Err(XhciError::NoPorts))
        } else {
            decided(deeds, Ok((PortScan { port: scan.port, count }, Some(count))))
        };
        (found, planned)
    }
}

impl XhciController {
    /// Plans to read the register of a port.
    pub fn read_portsc(&self, port: u8, plan: &mut Plan) -> (r: Result<(), XhciError>)
        ensures
            (Planned { result: r, deeds: final(plan)@ }) == plan_read_portsc(
                *self,
                old(plan)@,
                port,
            ),
    {
        let offset: u32 = portsc_offset(self.op_base, port)?;
        self.registers.read(plan, offset, 0)
    }

    /// Plans to write the register of a port.
    pub fn write_portsc(&self, port: u8, value: u32, plan: &mut Plan) -> (r: Result<(), XhciError>)
        ensures
            (Planned { result: r, deeds: final(plan)@ }) == plan_write_portsc(
                *self,
                old(plan)@,
                port,
                value,
            ),
    {
        let offset: u32 = portsc_offset(self.op_base, port)?;
        self.registers.write(plan, offset, 0, value)
    }

    /// Begins to search for the ports to which a device is connected.
    pub fn connected_root_ports(&self, plan: &mut Plan) -> (r: Result<PortScan, XhciError>)
        ensures
            (Planned { result: r, deeds: final(plan)@ }) == scan_start(*self, old(plan)@),
    {
        if self.max_ports == 0 {
            return Err(XhciError::NoPorts);
        }
        self.read_portsc(1, plan)?;
        Ok(PortScan { port: 1, count: 0 })
    }

    /// Goes on with the register of a port. The ports that are found are put into `output`; gives
    /// their number when all ports have been seen.
    pub fn next_root_port(
        &self,
        scan: &mut PortScan,
        portsc: u32,
        output: &mut [u8],
        plan: &mut Plan,
    ) -> (r: Result<Option<usize>, XhciError>)
        ensures
            ({
                let (found, planned) = scan_step(
                    *self,
                    *old(scan),
                    portsc,
                    old(output)@,
                    old(plan)@,
                );
                &&& final(output)@ == found
                &&& final(plan)@ == planned.deeds
                &&& match planned.result {
                    Ok((next, done)) => r == Ok::<_, XhciError>(done) && *final(scan) == next,
                    Err(e) => r == Err::<Option<usize>, _>(e),
                }
            }),
    {
        if connected(portsc) {
            if scan.count >= output.len() {
                return Err(XhciError::Allocation);
            }
            output[scan.count] = scan.port;
            scan.count = scan.count + 1;
        }
        if scan.port < self.max_ports {
            self.read_portsc(scan.port + 1, plan)?;
            scan.port = scan.port + 1;
            return Ok(None);
        }
        if scan.count == 0 {
            return Err(XhciError::NoPorts);
        }
        Ok(Some(scan.count))
    }
}

/// The ports among the first `n` to which a device is connected, in order, where `registers` holds
/// the registers of the ports.
pub open spec fn connected_among(registers: Seq<u32>, n: int) -> Seq<u8>
    decreases n,
{
    if n <= 0 {
        Seq::empty()
    } else if is_connected(registers[n - 1]) {
        connected_among(registers, n - 1).push(n as u8)
    } else {
        connected_among(registers, n - 1)
    }
}

/// A search has found the ports before the one that it is at.
pub open spec fn scanned(registers: Seq<u32>, n: int, count: int, output: Seq<u8>) -> bool {
    &&& count == connected_among(registers, n).len()
    &&& count <= output.len()
    &&& output.take(count) == connected_among(registers, n)
}

proof fn lemma_connected_among(registers: Seq<u32>, n: int)
    ensures
        n >= 0 ==> connected_among(registers, n).len() <= n,
    decreases n,
{
    if n > 0 {
        lemma_connected_among(registers, n - 1);
    }
}

/// A search finds exactly the ports to which a device is connected, in order: it starts with
/// none, each step adds the port that it is at if a device is connected there, and the last step
/// tells their number.
pub proof fn law_a_search_finds_the_connected_ports(
    c: XhciController,
    scan: PortScan,
    registers: Seq<u32>,
    output: Seq<u8>,
    deeds: Seq<Deed>,
)
    requires
        registers.len() == c.max_ports,
    ensures
        scan_start(c, deeds).result matches Ok(first) ==> first.port == 1 && scanned(
            registers,
            first.port - 1,
            first.count as int,
            output,
        ),
        1 <= scan.port <= c.max_ports && scanned(
            registers,
            scan.port - 1,
            scan.count as int,
            output,
        ) ==> {
            let (found, planned) = scan_step(c, scan, registers[scan.port - 1], output, deeds);
            planned.result matches Ok((next, done)) ==> match done {
                None => next.port == scan.port + 1 && scanned(
                    registers,
                    next.port - 1,
                    next.count as int,
                    found,
                ),
                Some(count) => scanned(registers, c.max_ports as int, count as int, found) && count
                    > 0,
            }
        },
{
    assert(output.take(0) =~= connected_among(registers, 0));
    if 1 <= scan.port <= c.max_ports && scanned(
        registers,
        scan.port - 1,
        scan.count as int,
        output,
    ) {
        let (found, planned) = scan_step(c, scan, registers[scan.port - 1], output, deeds);
        lemma_connected_among(registers, scan.port - 1);
        if is_connected(registers[scan.port - 1]) && scan.count < output.len() {
            assert(found.take(scan.count + 1) =~= output.take(scan.count as int).push(scan.port));
            assert(connected_among(registers, scan.port as int) == found.take(scan.count + 1));
        }
    }
}

} // verus!
