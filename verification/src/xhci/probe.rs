//! Trying a controller out: bringing it up, and asking the first device for its descriptor.
use vstd::prelude::*;

use crate::memory::{direct_address, directly_mapped};
use crate::pci::{BarInfo, PciAddress, XhciCaps, XhciPciDevice};
use crate::xhci::XhciError;
use crate::xhci::address::{address_step, new_addressing, Addressing, DESCRIPTOR_BYTES};
use crate::xhci::controller::{
    begun, plan_read_portsc, scan_start, scan_step, PortScan, XhciController,
};
use crate::xhci::plan::{decided, Action, Answer, Deed, Plan, Planned};
use crate::xhci::startup::{startup_step, Startup};
use crate::xhci::transfer::{control_step, Addressed, DataStage, GET_DESCRIPTOR_8};
use crate::xhci::wait::{wait_step, EventWait};

verus! {

/// How far a controller could be tried out.
#[derive(Clone, Copy, Debug, PartialEq, Eq, Structural)]
pub enum ControlProbe {
    /// A device sent eight bytes of its descriptor.
    Eight,
    /// No device is connected.
    Nothing,
}

impl ControlProbe {
    pub open spec fn text(self) -> &'static str {
        match self {
            ControlProbe::Eight => "8",
            ControlProbe::Nothing => "none",
        }
    }

    pub fn as_str(self) -> (text: &'static str)
        ensures
            text@ == self.text()@,
    {
        match self {
            ControlProbe::Eight => "8",
            ControlProbe::Nothing => "none",
        }
    }
}

/// What was found out about a controller.
#[derive(Clone, Copy, Debug, PartialEq, Eq, Structural)]
pub struct ProbeReport {
    pub slots_en: u8,
    pub ports: u8,
    pub ctx64: u8,
    pub scratch: u16,
    pub max_slots: u8,
    pub control_probe: ControlProbe,
}

/// What is known of a controller.
pub open spec fn report_of(c: XhciController, control_probe: ControlProbe) -> ProbeReport {
    ProbeReport {
        slots_en: c.max_slots_en,
        ports: c.max_ports,
        ctx64: if c.caps.context_64 {
            1
        } else {
            0
        },
        scratch: c.scratchpad_count,
        max_slots: c.caps.max_slots,
        control_probe,
    }
}

impl XhciController {
    pub fn max_slots_en(&self) -> (slots: u8)
        ensures
            slots == self.max_slots_en,
    {
        self.max_slots_en
    }

    pub fn max_ports(&self) -> (ports: u8)
        ensures
            ports == self.max_ports,
    {
        self.max_ports
    }

    pub fn caps(&self) -> (caps: XhciCaps)
        ensures
            caps == self.caps,
    {
        self.caps
    }

    pub fn scratchpad_count(&self) -> (count: u16)
        ensures
            count == self.scratchpad_count,
    {
        self.scratchpad_count
    }

    pub fn dcbaa_phys(&self) -> (address: u64)
        ensures
            address == self.dcbaa_phys,
    {
        self.dcbaa_phys
    }

    pub fn cmd_phys(&self) -> (address: u64)
        ensures
            address == self.cmd_phys,
    {
        self.cmd_phys
    }

    pub fn evt_phys(&self) -> (address: u64)
        ensures
            address == self.evt_phys,
    {
        self.evt_phys
    }

    pub fn erst_phys(&self) -> (address: u64)
        ensures
            address == self.erst_phys,
    {
        self.erst_phys
    }

    fn report(&self, control_probe: ControlProbe) -> (report: ProbeReport)
        ensures
            report == report_of(*self, control_probe),
    {
        ProbeReport {
            slots_en: self.max_slots_en(),
            ports: self.max_ports(),
            ctx64: if self.caps().context_64 {
                1
            } else {
                0
            },
            scratch: self.scratchpad_count(),
            max_slots: self.caps().max_slots,
            control_probe,
        }
    }
}

/// What is said of an error.
pub open spec fn status_text(error: XhciError) -> &'static str {
    match error {
        XhciError::UnsupportedPlatform => "unsupported-platform",
        XhciError::UnsupportedEvent => "unsupported-event",
        XhciError::InvalidRegister => "invalid-register",
        XhciError::Mapping(_) => "map-failed",
        XhciError::Dma(_) => "dma-failed",
        XhciError::Timeout => "Timeout",
        XhciError::Stalled => "Stalled",
        XhciError::TransferFailed(_) => "transfer-failed",
        XhciError::NoDevice => "no-device",
        XhciError::InvalidSlot => "invalid-slot",
        XhciError::NoPorts => "no-ports",
        XhciError::Allocation => "allocation-failed",
    }
}

/// What is said of an error.
pub fn xhci_status(error: &XhciError) -> (text: &'static str)
    ensures
        text@ == status_text(*error)@,
{
    match error {
        XhciError::UnsupportedPlatform => "unsupported-platform",
        XhciError::UnsupportedEvent => "unsupported-event",
        XhciError::InvalidRegister => "invalid-register",
        XhciError::Mapping(_) => "map-failed",
        XhciError::Dma(_) => "dma-failed",
        XhciError::Timeout => "Timeout",
        XhciError::Stalled => "Stalled",
        XhciError::TransferFailed(_) => "transfer-failed",
        XhciError::NoDevice => "no-device",
        XhciError::InvalidSlot => "invalid-slot",
        XhciError::NoPorts => "no-ports",
        XhciError::Allocation => "allocation-failed",
    }
}

/// Ports that can be remembered: more than a controller can have.
pub const PORT_BUFFER: usize = 256;

/// A controller that is being tried out.
pub enum UsbProbe {
    Starting { startup: Startup },
    Scanning { controller: XhciController, scan: PortScan, ports: Vec<u8> },
    Addressing { controller: XhciController, addressing: Addressing },
    Buffering { controller: XhciController, device: Addressed },
    Describing { controller: XhciController, wait: EventWait },
}

/// The model of a controller that is being tried out.
pub enum UsbProbeView {
    Starting { startup: Startup },
    Scanning { controller: XhciController, scan: PortScan, ports: Seq<u8> },
    Addressing { controller: XhciController, addressing: Addressing },
    Buffering { controller: XhciController, device: Addressed },
    Describing { controller: XhciController, wait: EventWait },
}

impl View for UsbProbe {
    type V = UsbProbeView;

    open spec fn view(&self) -> UsbProbeView {
        match *self {
            UsbProbe::Starting { startup } => UsbProbeView::Starting { startup },
            UsbProbe::Scanning { controller, scan, ports } => UsbProbeView::Scanning {
                controller,
                scan,
                ports: ports@,
            },
            UsbProbe::Addressing { controller, addressing } => UsbProbeView::Addressing {
                controller,
                addressing,
            },
            UsbProbe::Buffering { controller, device } => UsbProbeView::Buffering {
                controller,
                device,
            },
            UsbProbe::Describing { controller, wait } => UsbProbeView::Describing {
                controller,
                wait,
            },
        }
    }
}

/// A probe that goes on, or its report.
pub enum Progress {
    Ongoing(UsbProbe),
    Finished(ProbeReport),
}

/// The model of a probe that goes on, or its report.
pub enum ProgressView {
    Ongoing(UsbProbeView),
    Finished(ProbeReport),
}

impl View for Progress {
    type V = ProgressView;

    open spec fn view(&self) -> ProgressView {
        match *self {
            Progress::Ongoing(probe) => ProgressView::Ongoing(probe@),
            Progress::Finished(report) => ProgressView::Finished(report),
        }
    }
}

/// What an error of the search for ports means: without a port there is nothing to try.
pub open spec fn without_ports(c: XhciController, deeds: Seq<Deed>, e: XhciError) -> Planned<
    ProgressView,
> {
    if e is NoPorts {
        decided(deeds, Ok(ProgressView::Finished(report_of(c, ControlProbe::Nothing))))
    } else {
        decided(deeds, Err(e))
    }
}

/// Begins to search the ports of a controller that runs.
pub open spec fn search(c: XhciController, deeds: Seq<Deed>) -> Planned<ProgressView> {
    let started = scan_start(c, deeds);
    match started.result {
        Ok(scan) => decided(
            started.deeds,
            Ok(
                ProgressView::Ongoing(
                    UsbProbeView::Scanning {
                        controller: c,
                        scan,
                        ports: Seq::new(PORT_BUFFER as nat, |i: int| 0u8),
                    },
                ),
            ),
        ),
        Err(e) => without_ports(c, started.deeds, e),
    }
}

/// Goes on with the register of a port.
pub open spec fn search_step(
    c: XhciController,
    scan: PortScan,
    ports: Seq<u8>,
    portsc: u32,
    deeds: Seq<Deed>,
) -> Planned<ProgressView> {
    let (found, planned) = scan_step(c, scan, portsc, ports, deeds);
    match planned.result {
        Err(e) => without_ports(c, planned.deeds, e),
        Ok((scan, None)) => decided(
            planned.deeds,
            Ok(ProgressView::Ongoing(UsbProbeView::Scanning { controller: c, scan, ports: found })),
        ),
        Ok((scan, Some(_))) => plan_read_portsc(c, planned.deeds, found[0]).and_then(
            |u: (), deeds: Seq<Deed>|
                decided(
                    deeds,
                    Ok(
                        ProgressView::Ongoing(
                            UsbProbeView::Addressing {
                                controller: c,
                                addressing: new_addressing(found[0]),
                            },
                        ),
                    ),
                ),
        ),
    }
}

/// Goes on with an answer.
pub open spec fn probe_step(p: UsbProbeView, answer: Answer, deeds: Seq<Deed>) -> Planned<
    ProgressView,
> {
    match p {
        UsbProbeView::Starting { startup } => startup_step(startup, answer, deeds).and_then(
            |next: (Startup, Option<XhciController>), deeds: Seq<Deed>|
                match next {
                    (startup, None) => decided(
                        deeds,
                        Ok(ProgressView::Ongoing(UsbProbeView::Starting { startup })),
                    ),
                    (_, Some(controller)) => search(controller, deeds),
                },
        ),
        UsbProbeView::Scanning { controller, scan, ports } => match answer {
            Answer::Failed(e) => decided(deeds, Err(e)),
            Answer::Word(portsc) => search_step(controller, scan, ports, portsc, deeds),
            _ => decided(deeds, Err(XhciError::InvalidRegister)),
        },
        UsbProbeView::Addressing { controller, addressing } => {
            let step = address_step(controller, addressing, answer, deeds);
            let c = step.state;
            match step.result {
                Err(e) => decided(step.deeds, Err(e)),
                Ok((addressing, None)) => decided(
                    step.deeds,
                    Ok(ProgressView::Ongoing(UsbProbeView::Addressing { controller: c, addressing })),
                ),
                Ok((_, Some(device))) => decided(
                    step.deeds.push(Deed::Allocate { size: DESCRIPTOR_BYTES, align: 64 }),
                    Ok(ProgressView::Ongoing(UsbProbeView::Buffering { controller: c, device })),
                ),
            }
        },
        UsbProbeView::Buffering { controller, device } => match answer {
            Answer::Failed(e) => decided(deeds, Err(e)),
            Answer::Memory { device: buffer, .. } => if !directly_mapped(buffer as int, 8) {
                decided(deeds, Err(XhciError::InvalidRegister))
            } else {
                let asked = control_step(
                    controller,
                    device.ep0,
                    device.handle.slot_id,
                    deeds,
                    GET_DESCRIPTOR_8@,
                    Some(DataStage { dir_in: true, phys: buffer, len: 8 }),
                );
                match asked.result {
                    Err(e) => decided(asked.deeds, Err(e)),
                    Ok(wait) => decided(
                        asked.deeds,
                        Ok(ProgressView::Ongoing(UsbProbeView::Describing { controller, wait })),
                    ),
                }
            },
            _ => decided(deeds, Err(XhciError::InvalidRegister)),
        },
        UsbProbeView::Describing { controller, wait } => {
            let step = wait_step(controller, wait, answer, deeds);
            let c = step.state;
            match step.result {
                Err(e) => decided(step.deeds, Err(e)),
                Ok((wait, None)) => decided(
                    step.deeds,
                    Ok(ProgressView::Ongoing(UsbProbeView::Describing { controller: c, wait })),
                ),
                Ok((_, Some(_))) => decided(
                    step.deeds,
                    Ok(ProgressView::Finished(report_of(c, ControlProbe::Eight))),
                ),
            }
        },
    }
}

/// What a part of the probe returns and plans.
pub open spec fn follows(
    r: Result<Progress, XhciError>,
    deeds: Seq<Deed>,
    planned: Planned<ProgressView>,
) -> bool {
    &&& deeds == planned.deeds
    &&& match planned.result {
        Ok(progress) => r is Ok && r->Ok_0@ == progress,
        Err(e) => r is Err && r->Err_0 == e,
    }
}

/// What is known of an ongoing probe.
pub open spec fn going_well(r: Result<Progress, XhciError>) -> bool {
    match r {
        Ok(Progress::Ongoing(probe)) => probe.wf(),
        _ => true,
    }
}

/// Begins to try a controller out.
pub fn probe_and_collect(
    address: PciAddress,
    bar: BarInfo,
    caps: XhciCaps,
    ticks_per_second: u64,
    plan: &mut Plan,
) -> (r: Result<UsbProbe, XhciError>)
    ensures
        match r {
            Ok(probe) => {
                &&& probe.wf()
                &&& 0 < bar.size <= usize::MAX
                &&& probe is Starting
                &&& probe->startup == begun(
                    (XhciPciDevice { address, bar }),
                    caps,
                    ticks_per_second,
                )
                &&& final(plan)@ == old(plan)@.push(
                    Deed::MapRegisters { base: bar.base, len: bar.size as usize },
                )
            },
            Err(e) => {
                &&& bar.size == 0 || bar.size > usize::MAX
                &&& e == XhciError::Mapping(crate::mmio::MapError::InvalidRange)
                &&& final(plan)@ == old(plan)@
            },
        },
{
    let pci = XhciPciDevice { address, bar };
    let startup = XhciController::initialize(pci, caps, ticks_per_second, plan)?;
    Ok(UsbProbe::Starting { startup })
}

impl UsbProbe {
    /// The rings are used within their bounds.
    pub open spec fn wf(self) -> bool {
        match self {
            UsbProbe::Starting { startup } => true,
            UsbProbe::Scanning { controller, scan, ports } => controller.wf() && ports@.len()
                == PORT_BUFFER,
            UsbProbe::Addressing { controller, addressing } => controller.wf() && addressing.wf(),
            UsbProbe::Buffering { controller, device } => controller.wf() && device.ep0.wf(),
            UsbProbe::Describing { controller, wait } => controller.wf(),
        }
    }

    /// Goes on with an answer. Gives the report when the first device has sent its descriptor, or
    /// when there is none.
    pub fn resume(self, answer: Answer, plan: &mut Plan) -> (r: Result<Progress, XhciError>)
        requires
            self.wf(),
        ensures
            going_well(r),
            follows(r, final(plan)@, probe_step(self@, answer, old(plan)@)),
    {
        match self {
            UsbProbe::Starting { startup } => {
                let mut startup = startup;
                match startup.resume(answer, plan)? {
                    None => Ok(Progress::Ongoing(UsbProbe::Starting { startup })),
                    Some(controller) => begin_search(controller, plan),
                }
            },
            UsbProbe::Scanning { controller, scan, ports } => match answer {
                Answer::Failed(error) => Err(error),
                Answer::Word(portsc) => go_on_searching(controller, scan, ports, portsc, plan),
                _ => Err(XhciError::InvalidRegister),
            },
            UsbProbe::Addressing { controller, addressing } => {
                let mut controller = controller;
                let mut addressing = addressing;
                match addressing.resume(&mut controller, &answer, plan)? {
                    None => Ok(Progress::Ongoing(UsbProbe::Addressing { controller, addressing })),
                    Some(device) => {
                        plan.push(Action::Allocate { size: DESCRIPTOR_BYTES, align: 64 });
                        Ok(Progress::Ongoing(UsbProbe::Buffering { controller, device }))
                    },
                }
            },
            UsbProbe::Buffering { controller, device } => match answer {
                Answer::Failed(error) => Err(error),
                Answer::Memory { device: buffer, .. } => {
                    if direct_address(buffer, 8).is_none() {
                        return Err(XhciError::InvalidRegister);
                    }
                    let mut device = device;
                    let data = DataStage { dir_in: true, phys: buffer, len: 8 };
                    let wait = controller.begin_control(
                        &mut device,
                        GET_DESCRIPTOR_8,
                        Some(data),
                        plan,
                    )?;
                    Ok(Progress::Ongoing(UsbProbe::Describing { controller, wait }))
                },
                _ => Err(XhciError::InvalidRegister),
            },
            UsbProbe::Describing { controller, wait } => {
                let mut controller = controller;
                let mut wait = wait;
                match wait.resume(&mut controller, &answer, plan)? {
                    None => Ok(Progress::Ongoing(UsbProbe::Describing { controller, wait })),
                    Some(_) => Ok(Progress::Finished(controller.report(ControlProbe::Eight))),
                }
            },
        }
    }
}

/// Begins to search the ports of a controller that runs.
fn begin_search(controller: XhciController, plan: &mut Plan) -> (r: Result<Progress, XhciError>)
    requires
        controller.wf(),
    ensures
        going_well(r),
        follows(r, final(plan)@, search(controller, old(plan)@)),
{
    match controller.connected_root_ports(plan) {
        Ok(scan) => {
            let ports: Vec<u8> = vec![0u8; PORT_BUFFER];
            assert(ports@ =~= Seq::new(PORT_BUFFER as nat, |i: int| 0u8));
            Ok(Progress::Ongoing(UsbProbe::Scanning { controller, scan, ports }))
        },
        Err(XhciError::NoPorts) => Ok(Progress::Finished(controller.report(ControlProbe::Nothing))),
        Err(other) => Err(other),
    }
}

/// Goes on with the register of a port.
fn go_on_searching(
    controller: XhciController,
    scan: PortScan,
    ports: Vec<u8>,
    portsc: u32,
    plan: &mut Plan,
) -> (r: Result<Progress, XhciError>)
    requires
        controller.wf(),
        ports@.len() == PORT_BUFFER,
    ensures
        going_well(r),
        follows(r, final(plan)@, search_step(controller, scan, ports@, portsc, old(plan)@)),
{
    let mut scan = scan;
    let mut ports = ports;
    match controller.next_root_port(&mut scan, portsc, ports.as_mut_slice(), plan) {
        Ok(None) => Ok(Progress::Ongoing(UsbProbe::Scanning { controller, scan, ports })),
        Ok(Some(_)) => {
            let addressing = controller.reset_and_address(ports[0], plan)?;
            Ok(Progress::Ongoing(UsbProbe::Addressing { controller, addressing }))
        },
        Err(XhciError::NoPorts) => Ok(Progress::Finished(controller.report(ControlProbe::Nothing))),
        Err(other) => Err(other),
    }
}

} // verus!
