use relay_core::clock::{CrystalInfo, TscClock};
use relay_core::dma::DmaError;
use relay_core::mmio::MapError;
use relay_core::pci::{BarInfo, PciAddress, XhciCaps, XhciPciDevice};
use relay_core::xhci::controller::XhciController;
use relay_core::xhci::plan::{Action, Answer, Plan};
use relay_core::xhci::probe::{
    probe_and_collect, xhci_status, ControlProbe, ProbeReport, Progress,
};
use relay_core::xhci::transfer::{Addressed, TransferRing, UsbDevice};
use relay_core::xhci::wait::{Awaited, EventWait};
use relay_core::xhci::{
    BulkData, BulkDirection, ControlData, ControlDirection, DeviceHandle, EndpointConfig, UsbSpeed,
    XhciError,
};
use std::collections::BTreeMap;

const OP: u32 = 0x20;
const DB: u32 = 0x1000;
const RT: u32 = 0x2000;
const BAR_LEN: usize = 0x4000;

/// Where the processor sees the memory that it gives out.
const SEEN_AT: u64 = 0x7000_0000_0000;

fn memory(device: u64) -> Answer {
    Answer::Memory {
        cpu: device + SEEN_AT,
        device,
    }
}

fn caps() -> XhciCaps {
    XhciCaps {
        cap_length: 0x20,
        interface_version: 0x0110,
        max_slots: 40,
        max_ports: 2,
        context_64: true,
        addr_64: true,
        scratchpad_count: 2,
        legacy_owned: true,
        usb2_bdf_range: (1, 2),
        usb3_bdf_range: (0, 0),
    }
}

fn bar() -> BarInfo {
    BarInfo {
        base: 0xC000_0000,
        size: BAR_LEN as u64,
        is_64: true,
    }
}

fn address() -> PciAddress {
    PciAddress {
        segment: 0,
        bus: 0,
        device: 0x14,
        function: 0,
    }
}

/// A controller with one device, as far as the driver can tell.
struct FakeController {
    registers: BTreeMap<u32, u32>,
    memory: BTreeMap<u64, u8>,
    next: u64,
    ticks: u64,
    commands: u64,
    events: u64,
    event_cycle: u8,
    ep0: u64,
    completion: u8,
    packet: u8,
    fills: usize,
    /// Whether the buffer for a descriptor lies at the end of what is mapped.
    edge: bool,
    log: Vec<String>,
}

impl FakeController {
    fn new() -> Self {
        let mut registers = BTreeMap::new();
        registers.insert(0x00, 0x0110_0020);
        registers.insert(0x10, 0x0200_0001);
        registers.insert(0x14, DB);
        registers.insert(0x18, RT);
        registers.insert(0x800, 0x0001_0001);
        registers.insert(0x804, 0x0000_00FF);
        registers.insert(OP, 0x5);
        registers.insert(OP + 4, 0);
        registers.insert(OP + 8, 1);
        registers.insert(OP + 0x38, 0xABCD_EF00);
        registers.insert(OP + 0x400, 0x2A0);
        registers.insert(OP + 0x410, 0x2A1 | (1 << 10));
        FakeController {
            registers,
            memory: BTreeMap::new(),
            next: 0x10_0000,
            ticks: 1000,
            commands: 0,
            events: 0,
            event_cycle: 1,
            ep0: 0,
            completion: 1,
            packet: 64,
            fills: 0,
            edge: false,
            log: Vec::new(),
        }
    }

    fn load(&self, address: u64, len: usize) -> Vec<u8> {
        (0..len as u64)
            .map(|i| *self.memory.get(&(address + i)).unwrap_or(&0))
            .collect()
    }

    fn load64(&self, address: u64) -> u64 {
        u64::from_le_bytes(self.load(address, 8).try_into().unwrap())
    }

    fn store(&mut self, address: u64, bytes: &[u8]) {
        for (i, byte) in bytes.iter().enumerate() {
            self.memory.insert(address + i as u64, *byte);
        }
    }

    fn register64(&self, offset: u32) -> u64 {
        u64::from(self.registers[&offset]) | u64::from(self.registers[&(offset + 4)]) << 32
    }

    fn post(&mut self, pointer: u64, code: u8, kind: u32, slot: u8, endpoint: u8) {
        let segment = self.load64(self.register64(RT + 48));
        let mut event = pointer.to_le_bytes().to_vec();
        event.extend(((u32::from(code)) << 24).to_le_bytes());
        let control = kind << 10
            | u32::from(slot) << 24
            | u32::from(endpoint) << 16
            | u32::from(self.event_cycle);
        event.extend(control.to_le_bytes());
        self.store(segment + self.events * 16, &event);
        self.events += 1;
    }

    fn run_command(&mut self) {
        let ring = self.register64(OP + 24) & !0x3F;
        let place = ring + self.commands * 16;
        self.commands += 1;
        let trb = self.load(place, 16);
        let control = u32::from_le_bytes(trb[12..16].try_into().unwrap());
        assert_eq!(control & 1, 1);
        let kind = control >> 10 & 0x3F;
        self.log.push(format!("command {kind}"));
        let slot = if kind == 9 { 5 } else { trb[15] };
        if kind == 11 {
            let input = u64::from_le_bytes(trb[0..8].try_into().unwrap());
            assert_eq!(self.load(input + 4, 4), 3u32.to_le_bytes());
            assert_eq!(self.load(input + 38, 1), [2]);
            self.ep0 = self.load64(input + 32 + 64 + 8) & !0xF;
        }
        if kind == 13 {
            let input = u64::from_le_bytes(trb[0..8].try_into().unwrap());
            assert_eq!(self.load(input + 32 + 64 + 6, 2), [self.packet, 0]);
            assert_eq!(self.load64(input + 32 + 64 + 8), self.ep0 | 1);
        }
        self.post(place, 1, 33, slot, 0);
    }

    fn run_transfer(&mut self, slot: u8, endpoint: u8) {
        loop {
            let place = self.ep0;
            let trb = self.load(place, 16);
            self.ep0 += 16;
            let control = u32::from_le_bytes(trb[12..16].try_into().unwrap());
            let kind = control >> 10 & 0x3F;
            self.log.push(format!("entry {kind}"));
            if kind == 3 {
                let data = u64::from_le_bytes(trb[0..8].try_into().unwrap());
                let packet = self.packet;
                self.store(data, &[18, 1, 0, 2, 0, 0, 0, packet]);
            }
            if control & 0x20 != 0 {
                self.post(place, self.completion, 32, slot, endpoint);
                return;
            }
        }
    }

    fn write(&mut self, offset: u32, value: u32) {
        if offset == DB {
            return self.run_command();
        }
        if offset > DB && offset < RT {
            return self.run_transfer(((offset - DB) / 4) as u8, value as u8);
        }
        let mut value = value;
        if offset == OP {
            assert_eq!(value & 4, 0, "interrupts must stay off");
            let status = u32::from(value & 1 == 0);
            self.registers.insert(OP + 4, status);
            value &= !2;
        }
        if offset == 0x800 {
            value &= !0x1_0000;
        }
        if offset == OP + 0x410 && value & 0x10 != 0 {
            value = (value & !0x10) | 2;
        }
        self.registers.insert(offset, value);
    }

    fn carry_out(&mut self, plan: &Plan) -> Answer {
        let mut answer = Answer::Done;
        for action in &plan.actions {
            answer = Answer::Done;
            match action {
                Action::MapRegisters { base, len } => {
                    assert_eq!((*base, *len), (0xC000_0000, BAR_LEN));
                }
                Action::Read { offset } => {
                    answer = Answer::Word(*self.registers.get(offset).unwrap_or(&0));
                }
                Action::Write { offset, value } => self.write(*offset, *value),
                Action::Store { address, bytes } => self.store(*address, bytes),
                Action::Fill { base, at, bytes } => {
                    assert!(*base >= SEEN_AT);
                    self.fills += 1;
                    self.store(*base - SEEN_AT + *at as u64, bytes);
                }
                Action::Fence => {}
                Action::Allocate { size, align } => {
                    let align = *align as u64;
                    let mut place = (self.next + align - 1) / align * align;
                    self.next = place + *size as u64;
                    if self.edge && *size == 64 && !self.log.is_empty() {
                        place = 0x8000_0000_0000 - 8;
                    }
                    answer = memory(place);
                }
                Action::Load { address } => {
                    answer = Answer::Entry(self.load(*address, 16).try_into().unwrap());
                }
                Action::LoadStart { address } => {
                    answer = Answer::Start(self.load(*address, 8).try_into().unwrap());
                }
                Action::Time => {
                    self.ticks += 10;
                    answer = Answer::Ticks(self.ticks);
                }
                Action::EnableBusMaster { device } => {
                    self.log.push(format!("bus master {:x}", device.device));
                }
            }
        }
        answer
    }

    fn probe(&mut self) -> Result<ProbeReport, XhciError> {
        let mut plan = Plan::new();
        let mut probe = probe_and_collect(address(), bar(), caps(), 1_000_000, &mut plan)?;
        loop {
            let answer = self.carry_out(&plan);
            plan = Plan::new();
            match probe.resume(answer, &mut plan)? {
                Progress::Ongoing(next) => probe = next,
                Progress::Finished(report) => return Ok(report),
            }
        }
    }
}

#[test]
fn a_connected_device_sends_its_descriptor() {
    let mut fake = FakeController::new();
    assert_eq!(
        fake.probe(),
        Ok(ProbeReport {
            slots_en: 32,
            ports: 2,
            ctx64: 1,
            scratch: 2,
            max_slots: 40,
            control_probe: ControlProbe::Eight,
        })
    );
    assert_eq!(
        fake.log,
        [
            "bus master 14",
            "command 9",
            "command 11",
            "entry 2",
            "entry 3",
            "entry 4",
            "command 13",
            "entry 2",
            "entry 3",
            "entry 4"
        ]
    );
    assert_eq!(fake.registers[&(OP + 0x38)], 0xABCD_EF20);
    assert_eq!(fake.registers[&0x800], 0x0100_0001);
    assert_eq!(fake.registers[&0x804], 0xE0);
    let dcbaa = fake.register64(OP + 48);
    let array = fake.load64(dcbaa);
    assert_ne!(array, 0);
    assert_eq!(fake.load64(array) % 4096, 0);
    assert_eq!(fake.load64(array + 8), fake.load64(array) + 4096);
    // Two pages, the first context, and the two parts of the event table.
    assert_eq!(fake.fills, 5);
    assert_ne!(fake.load64(dcbaa + 5 * 8), 0);
}

#[test]
fn eight_mapped_bytes_are_enough_for_the_start_of_a_descriptor() {
    let mut fake = FakeController::new();
    fake.edge = true;
    assert_eq!(fake.probe().unwrap().control_probe, ControlProbe::Eight);
    assert!(fake.log.contains(&"command 13".to_string()));
}

#[test]
fn a_packet_size_that_is_right_is_not_changed() {
    let mut fake = FakeController::new();
    fake.packet = 8;
    assert_eq!(fake.probe().unwrap().control_probe, ControlProbe::Eight);
    assert!(!fake.log.contains(&"command 13".to_string()));
}

#[test]
fn without_a_device_there_is_nothing_to_try() {
    let mut fake = FakeController::new();
    fake.registers.insert(OP + 0x410, 0x2A0);
    let report = fake.probe().unwrap();
    assert_eq!(report.control_probe, ControlProbe::Nothing);
    assert_eq!(report.control_probe.as_str(), "none");
    assert_eq!(ControlProbe::Eight.as_str(), "8");
}

#[test]
fn a_stall_is_reported() {
    let mut fake = FakeController::new();
    fake.completion = 6;
    assert_eq!(fake.probe(), Err(XhciError::Stalled));
    let mut fake = FakeController::new();
    fake.completion = 4;
    assert_eq!(fake.probe(), Err(XhciError::TransferFailed(4)));
}

#[test]
fn controllers_that_cannot_be_driven_are_refused() {
    for (register, value, error) in [
        (0x00, 0x0110_0010, XhciError::InvalidRegister),
        (0x00, 0x0090_0020, XhciError::UnsupportedPlatform),
        (0x10, 0x0200_0000, XhciError::UnsupportedPlatform),
        (0x14, 0x4000, XhciError::InvalidRegister),
        (0x18, 0x5000, XhciError::InvalidRegister),
        (OP + 8, 2, XhciError::UnsupportedPlatform),
        (OP + 0x410, 0x2A1, XhciError::UnsupportedPlatform),
    ] {
        let mut fake = FakeController::new();
        fake.registers.insert(register, value);
        assert_eq!(fake.probe(), Err(error), "register {register:#x}");
    }
}

#[test]
fn a_controller_that_does_not_stop_times_out() {
    let mut plan = Plan::new();
    let pci = XhciPciDevice {
        address: address(),
        bar: bar(),
    };
    let mut startup = XhciController::initialize(pci, caps(), 100, &mut plan).unwrap();
    let mut answer = Answer::Done;
    let mut ticks = 7;
    let mut words = vec![0x0110_0020, 1, DB, RT, 5].into_iter();
    let mut waits = 0;
    let error = loop {
        plan = Plan::new();
        match startup.resume(answer, &mut plan) {
            Err(error) => break error,
            Ok(done) => assert!(done.is_none()),
        }
        answer = match plan.actions.last().unwrap() {
            Action::Time => {
                ticks += 40;
                Answer::Ticks(ticks)
            }
            Action::Read { offset } if *offset == OP + 4 => {
                waits += 1;
                Answer::Word(0)
            }
            Action::Read { .. } => Answer::Word(words.next().unwrap()),
            _ => Answer::Done,
        };
    };
    assert_eq!(error, XhciError::Timeout);
    assert_eq!(waits, 3);
}

#[test]
fn failures_of_the_machine_are_passed_on() {
    let mut plan = Plan::new();
    let none = BarInfo { size: 0, ..bar() };
    assert!(matches!(
        probe_and_collect(address(), none, caps(), 1, &mut plan),
        Err(XhciError::Mapping(MapError::InvalidRange))
    ));
    let probe = probe_and_collect(address(), bar(), caps(), 1, &mut plan).unwrap();
    let failed = Answer::Failed(XhciError::Dma(DmaError::NoMemory));
    assert!(matches!(
        probe.resume(failed, &mut Plan::new()),
        Err(XhciError::Dma(DmaError::NoMemory))
    ));
    assert_eq!(xhci_status(&XhciError::Timeout), "Timeout");
    assert_eq!(xhci_status(&XhciError::Dma(DmaError::NoMemory)), "dma-failed");
    assert_eq!(
        xhci_status(&XhciError::Mapping(MapError::NoMemory)),
        "map-failed"
    );
}

fn started() -> XhciController {
    XhciController {
        registers: relay_core::xhci::plan::KernelMmio::new(BAR_LEN),
        ticks_per_second: 1000,
        op_base: OP,
        db_base: DB,
        rt_base: RT,
        caps: caps(),
        max_slots_en: 32,
        max_ports: 2,
        scratchpad_count: 0,
        dcbaa_phys: 0x1000,
        cmd_phys: 0x2000,
        cmd_enqueue: 0,
        cmd_cycle: true,
        evt_phys: 0x3000,
        erst_phys: 0x4000,
        evt_dequeue: 0,
        evt_cycle: true,
    }
}

fn event(pointer: u64, kind: u32, slot: u8, endpoint: u8, code: u8, cycle: u8) -> [u8; 16] {
    let mut trb = [0; 16];
    trb[0..8].copy_from_slice(&pointer.to_le_bytes());
    trb[11] = code;
    let control =
        kind << 10 | u32::from(slot) << 24 | u32::from(endpoint) << 16 | u32::from(cycle);
    trb[12..16].copy_from_slice(&control.to_le_bytes());
    trb
}

#[test]
fn polling_takes_all_events_and_notices_an_overrun() {
    let mut controller = started();
    let mut plan = Plan::new();
    let mut polling = controller.poll(&mut plan).unwrap();
    assert!(matches!(
        plan.actions.last(),
        Some(Action::Load { address: 0x3000 })
    ));
    for _ in 0..3 {
        let next = controller
            .poll_entry(&mut polling, &event(0, 34, 0, 0, 1, 1), &mut plan)
            .unwrap();
        assert_eq!(next, None);
    }
    plan = Plan::new();
    let taken = controller.poll_entry(&mut polling, &[0; 16], &mut plan);
    assert_eq!(taken, Ok(Some(3)));
    assert_eq!((controller.evt_dequeue, controller.evt_cycle), (3, true));
    assert!(matches!(
        plan.actions[0],
        Action::Write { offset, value: 0x3030 } if offset == RT + 56
    ));
    assert_eq!(plan.actions.len(), 4);

    let mut controller = started();
    let mut polling = controller.poll(&mut plan).unwrap();
    for _ in 0..64 {
        let entry = event(0, 34, 0, 0, 1, 1);
        assert_eq!(
            controller.poll_entry(&mut polling, &entry, &mut plan),
            Ok(None)
        );
    }
    let entry = event(0, 34, 0, 0, 1, 0);
    assert_eq!(
        controller.poll_entry(&mut polling, &entry, &mut plan),
        Err(XhciError::TransferFailed(0))
    );
}

#[test]
fn waits_take_events_for_others_and_end_with_their_own() {
    let mut controller = started();
    let mut plan = Plan::new();
    let mut wait = EventWait::begin(0x2000, Awaited::Command { slot: 0 }, &mut plan);
    let mut go = |answer: Answer| wait.resume(&mut controller, &answer, &mut plan);
    assert_eq!(go(Answer::Ticks(0)), Ok(None));
    assert_eq!(go(Answer::Entry(event(0x9000, 32, 1, 1, 1, 1))), Ok(None));
    assert_eq!(go(Answer::Ticks(1)), Ok(None));
    assert_eq!(go(Answer::Entry([0; 16])), Ok(None));
    assert_eq!(go(Answer::Ticks(2)), Ok(None));
    assert_eq!(go(Answer::Entry(event(0x2000, 33, 7, 0, 1, 1))), Ok(Some(7)));
    assert_eq!(controller.evt_dequeue, 2);

    let mut wait = EventWait::begin(0x2000, Awaited::Command { slot: 3 }, &mut plan);
    let mut go = |answer: Answer| wait.resume(&mut controller, &answer, &mut plan);
    assert_eq!(go(Answer::Ticks(0)), Ok(None));
    assert_eq!(
        go(Answer::Entry(event(0x2000, 33, 7, 0, 1, 1))),
        Err(XhciError::InvalidSlot)
    );

    let awaited = Awaited::Transfer {
        slot: 3,
        endpoint: 4,
    };
    let mut wait = EventWait::begin(0x5000, awaited, &mut plan);
    let mut go = |answer: Answer| wait.resume(&mut controller, &answer, &mut plan);
    assert_eq!(go(Answer::Ticks(0)), Ok(None));
    assert_eq!(
        go(Answer::Entry(event(0x5000, 50, 3, 4, 1, 1))),
        Err(XhciError::UnsupportedEvent)
    );
    let mut wait = EventWait::begin(0x5000, awaited, &mut plan);
    let mut go = |answer: Answer| wait.resume(&mut controller, &answer, &mut plan);
    assert_eq!(go(Answer::Ticks(100)), Ok(None));
    assert_eq!(go(Answer::Entry([0; 16])), Ok(None));
    assert_eq!(go(Answer::Ticks(5099)), Ok(None));
    assert_eq!(go(Answer::Entry([0; 16])), Ok(None));
    assert_eq!(go(Answer::Ticks(5100)), Err(XhciError::Timeout));
}

fn device() -> UsbDevice {
    UsbDevice::new(Addressed {
        handle: DeviceHandle {
            slot_id: 5,
            root_port: 2,
            speed: UsbSpeed::High,
        },
        speed_raw: 3,
        ep0_max_packet: 64,
        ep0: TransferRing {
            phys: 0x8000,
            enqueue: 0,
            cycle: true,
        },
    })
}

fn config(address: u8, transfer_type: u8) -> EndpointConfig {
    EndpointConfig {
        address,
        transfer_type,
        max_packet_size: 512,
        interval: 4,
        max_burst: 1,
    }
}

#[test]
fn endpoints_are_set_up_and_used() {
    let mut controller = started();
    let mut device = device();
    let mut plan = Plan::new();
    let configs = [config(0x81, 2), config(0x02, 2)];
    let mut setup = controller.configure_endpoints(&configs, &mut plan).unwrap();
    for answer in [
        memory(0x1_0000),
        memory(0x1_0400),
        memory(0x2_0000),
        Answer::Ticks(0),
    ] {
        let done = setup.resume(&mut controller, &mut device, &answer, &mut plan);
        assert_eq!(done, Ok(false));
    }
    let mut stored = BTreeMap::new();
    for action in &plan.actions {
        if let Action::Store { address, bytes } = action {
            stored.insert(*address, bytes.clone());
        }
    }
    assert_eq!(stored[&0x2_0004], 0b11001u32.to_le_bytes());
    assert_eq!(stored[&0x2_0020], (4u32 << 27 | 3 << 16).to_le_bytes());
    assert_eq!(stored[&0x2_0024], (2u32 << 16).to_le_bytes());
    let bulk_in = 0x2_0000 + 32 + 3 * 64;
    assert_eq!(stored[&bulk_in], (4u32 << 16).to_le_bytes());
    assert_eq!(
        stored[&(bulk_in + 4)],
        (512u32 << 16 | 1 << 8 | 6 << 3 | 6).to_le_bytes()
    );
    assert_eq!(stored[&(bulk_in + 8)], 0x1_0001u64.to_le_bytes());
    assert_eq!(stored[&(bulk_in + 16)], (512u32 << 16 | 512).to_le_bytes());
    let done = setup.resume(
        &mut controller,
        &mut device,
        &Answer::Entry(event(0x2000, 33, 5, 0, 1, 1)),
        &mut plan,
    );
    assert_eq!(done, Ok(true));
    assert_eq!(device.endpoints.len(), 2);

    let mut bytes = [0u8; 100];
    let data = BulkData {
        direction: BulkDirection::In,
        buffer: &mut bytes,
        device_address: 0x3_0000,
    };
    plan = Plan::new();
    let wait = controller.bulk(&mut device, 3, data, &mut plan).unwrap();
    assert_eq!(wait.pointer, 0x1_0000);
    assert!(matches!(
        plan.actions[2],
        Action::Write { offset, value: 3 } if offset == DB + 5 * 4
    ));
    for (dci, direction, len, error) in [
        (3, BulkDirection::Out, 10, XhciError::TransferFailed(0)),
        (7, BulkDirection::In, 10, XhciError::InvalidSlot),
        (3, BulkDirection::In, 0, XhciError::TransferFailed(0)),
        (3, BulkDirection::In, 65536, XhciError::TransferFailed(0)),
    ] {
        let mut bytes = vec![0u8; len];
        let data = BulkData {
            direction,
            buffer: &mut bytes,
            device_address: 0x3_0000,
        };
        let result = controller.interrupt(&mut device, dci, data, &mut plan);
        assert_eq!(result.err(), Some(error));
    }
}

#[test]
fn endpoints_that_cannot_be_set_up_are_refused() {
    let controller = started();
    let mut plan = Plan::new();
    let packetless = EndpointConfig {
        max_packet_size: 0,
        ..config(0x81, 2)
    };
    for configs in [
        vec![],
        vec![config(0x80, 2)],
        vec![config(0x81, 1)],
        vec![packetless],
    ] {
        let result = controller.configure_endpoints(&configs, &mut plan);
        assert_eq!(result.err(), Some(XhciError::TransferFailed(0)));
    }
    let mut controller = started();
    let twice = [config(0x81, 2), config(0x81, 3)];
    let mut setup = controller.configure_endpoints(&twice, &mut plan).unwrap();
    let result = setup.resume(
        &mut controller,
        &mut device(),
        &memory(0x1_0000),
        &mut plan,
    );
    assert_eq!(result, Err(XhciError::TransferFailed(0)));
    let mut setup = controller
        .configure_endpoints(&[config(0x81, 2)], &mut plan)
        .unwrap();
    let result = setup.resume(
        &mut controller,
        &mut device(),
        &memory(0x1_0020),
        &mut plan,
    );
    assert_eq!(result, Err(XhciError::Allocation));
}

#[test]
fn control_transfers_put_three_entries_on_the_ring() {
    let controller = started();
    let mut device = device();
    let mut plan = Plan::new();
    let mut bytes = [0u8; 18];
    let data = ControlData {
        direction: ControlDirection::In,
        buffer: &mut bytes,
        device_address: 0x3_0000,
    };
    let setup = [0x80, 6, 0, 1, 0, 0, 18, 0];
    let wait = controller
        .control(&mut device, setup, Some(data), &mut plan)
        .unwrap();
    assert_eq!(wait.pointer, 0x8020);
    assert_eq!(device.device.ep0.enqueue, 3);
    let stores: Vec<&Vec<u8>> = plan
        .actions
        .iter()
        .filter_map(|action| match action {
            Action::Store { bytes, .. } => Some(bytes),
            _ => None,
        })
        .collect();
    assert_eq!(&stores[0][0..8], &setup);
    assert_eq!(&stores[0][8..16], &[18, 0, 0, 0, 0x51, 8, 8, 0]);
    assert_eq!(&stores[1][8..16], &[18, 0, 0, 0, 0x11, 0x0C, 1, 0]);
    assert_eq!(&stores[2][8..16], &[0, 0, 0, 0, 0x21, 0x10, 0, 0]);

    let wait = controller.control(&mut device, setup, None, &mut plan);
    assert_eq!(wait.unwrap().pointer, 0x8040);
    let mut large = vec![0u8; 4097];
    let data = ControlData {
        direction: ControlDirection::Out,
        buffer: &mut large,
        device_address: 0x3_0000,
    };
    let refused = controller.control(&mut device, setup, Some(data), &mut plan);
    assert_eq!(refused.err(), Some(XhciError::TransferFailed(0)));
}

#[test]
fn transfer_rings_wrap_and_change_their_mark() {
    let mut ring = TransferRing {
        phys: 0x8000,
        enqueue: 62,
        cycle: true,
    };
    let mut plan = Plan::new();
    assert_eq!(ring.push([0; 16], &mut plan), Ok(0x8000 + 62 * 16));
    assert_eq!(ring.idle_dequeue(), Ok(0x8000 + 63 * 16 + 1));
    plan = Plan::new();
    assert_eq!(ring.push([0; 16], &mut plan), Ok(0x8000));
    assert_eq!((ring.enqueue, ring.cycle), (1, false));
    let Action::Store { address, bytes } = &plan.actions[0] else {
        panic!("the link comes first");
    };
    assert_eq!(*address, 0x8000 + 63 * 16);
    assert_eq!(bytes[12], 2);
    assert_eq!(ring.idle_dequeue(), Ok(0x8010));
}

#[test]
fn the_command_ring_does_not_wrap() {
    let mut controller = started();
    let mut plan = Plan::new();
    for i in 0..63 {
        assert_eq!(
            controller.submit_command([0xFF; 16], &mut plan),
            Ok(0x2000 + i * 16)
        );
    }
    assert_eq!(
        controller.submit_command([0; 16], &mut plan),
        Err(XhciError::Allocation)
    );
}

#[test]
fn clocks_tick_as_the_processor_tells() {
    let told = CrystalInfo {
        denominator: 2,
        numerator: 184,
        crystal_hz: 24_000_000,
    };
    let clock = TscClock::calibrate(told);
    assert_eq!(clock.ticks_per_second(), 2_208_000_000);
    assert_eq!(clock.deadline_secs(5, 2).0, 4_416_000_005);
    assert!(!clock.expired(4_416_000_004, clock.deadline_secs(5, 2)));
    assert!(clock.expired(4_416_000_005, clock.deadline_secs(5, 2)));
    assert_eq!(clock.deadline_secs(u64::MAX - 1, 1).0, u64::MAX);
    let silent = CrystalInfo {
        crystal_hz: 0,
        ..told
    };
    assert_eq!(
        TscClock::calibrate(silent).ticks_per_second(),
        3_000_000_000
    );
    let slow = CrystalInfo {
        denominator: 1000,
        numerator: 1,
        crystal_hz: 1000,
    };
    assert_eq!(TscClock::calibrate(slow).ticks_per_second(), 1_000_000);
}

#[test]
fn a_search_finds_the_connected_ports_in_order() {
    let mut controller = started();
    controller.max_ports = 6;
    let registers = [0u32, 0x0e03, 0x02a0, 0x0601, 0, 0x0203];
    let mut output = [0u8; 4];
    let mut plan = Plan::new();
    let mut scan = controller.connected_root_ports(&mut plan).unwrap();
    let mut found = None;
    for register in registers {
        assert_eq!(found, None);
        found = controller
            .next_root_port(&mut scan, register, &mut output, &mut plan)
            .unwrap();
    }
    assert_eq!(found, Some(3));
    assert_eq!(&output[..3], &[2, 4, 6]);
    assert_eq!(plan.actions.len(), 6);

    let mut scan = controller.connected_root_ports(&mut plan).unwrap();
    let mut small = [0u8; 0];
    assert_eq!(
        controller.next_root_port(&mut scan, 1, &mut small, &mut plan),
        Err(XhciError::Allocation)
    );
    controller.max_ports = 1;
    let mut scan = controller.connected_root_ports(&mut plan).unwrap();
    assert_eq!(
        controller.next_root_port(&mut scan, 0, &mut output, &mut plan),
        Err(XhciError::NoPorts)
    );
    controller.max_ports = 0;
    assert_eq!(
        controller.connected_root_ports(&mut plan),
        Err(XhciError::NoPorts)
    );
}
