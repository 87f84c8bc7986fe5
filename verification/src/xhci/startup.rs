//! Bringing a controller up: taking it over from the firmware, stopping and resetting it, giving
//! it memory, and starting it.
use vstd::prelude::*;

use crate::bytes::{to_le32, to_le64};
use crate::clock::{ahead, deadline_after};
use crate::pci::{PciAddress, XhciCaps};
use crate::xhci::{
    encode_link, link_trb, XhciError, CAP_CAPLENGTH, CAP_DBOFF, CAP_HCC1, CAP_RTSOFF, OP_CONFIG,
    OP_CRCR, OP_DCBAAP, OP_PAGESIZE, OP_USBCMD, OP_USBSTS, RT_IMAN,
};
use crate::xhci::context::max_slots_en;
use crate::xhci::controller::XhciController;
use crate::xhci::plan::{
    decided, plan_read, plan_store, plan_write, plan_write64, Action, Answer, Deed, KernelMmio,
    Plan, Planned,
};

verus! {

/// The controller runs.
pub const USBCMD_RS: u32 = 0x1;

/// The controller is being reset.
pub const USBCMD_HCRST: u32 = 0x2;

/// The controller may interrupt.
pub const USBCMD_INTE: u32 = 0x4;

/// An event handler is busy.
pub const USBSTS_EHB: u32 = 0x8;

/// An interrupt is pending.
pub const IMAN_IP: u32 = 0x1;

/// The system claims the controller.
pub const LEGSUP_OS_OWNED: u32 = 0x100_0000;

/// The interrupts that the firmware takes.
pub const LEGCTL_SMI_MASK: u32 = 0x1F;

/// The capability by which firmware and system hand a controller over.
pub const CAPABILITY_LEGACY: u32 = 1;

/// The longest chain of capabilities that is followed.
pub const MAX_CAPABILITIES: u32 = 32;

/// The shortest block of capability registers.
pub const MIN_CAP_LENGTH: u32 = 32;

/// The oldest version that is driven.
pub const MIN_VERSION: u32 = 0x0100;

/// Bytes in the table of device contexts.
pub const DCBAA_BYTES: usize = 2048;

/// Bytes in a ring.
pub const RING_BYTES: usize = 1024;

/// Bytes in the table of event segments.
pub const ERST_BYTES: usize = 64;

/// Bytes in a page for the controller's own use.
pub const SCRATCH_BYTES: usize = 4096;

/// Where the last entry of a ring is.
pub const LAST_ENTRY: u64 = 1008;

/// Entries in the event ring.
pub const EVENT_ENTRIES: u32 = 64;

/// Where the registers of a controller are.
#[derive(Clone, Copy, Debug, PartialEq, Eq, Structural)]
pub struct Bases {
    pub op: u32,
    pub db: u32,
    pub rt: u32,
}

/// Something that the controller does in its own time. It has a second for each.
#[derive(Clone, Copy, Debug, PartialEq, Eq, Structural)]
pub enum Milestone {
    /// The firmware has given the controller up; `next` says where the next capability is.
    Ownership { offset: u32, seen: u32, next: u32 },
    Halted,
    ResetDone,
    ReadyAgain,
    Running,
}

/// What the next answer is about.
#[derive(Clone, Copy, Debug, PartialEq, Eq, Structural)]
pub enum Stage {
    Window,
    Lengths,
    Parameters,
    Doorbells,
    Runtime,
    Legacy { offset: u32, seen: u32 },
    LegacyControl { offset: u32, seen: u32, next: u32 },
    Stop,
    Reset,
    PageSize,
    Config,
    Start,
    Deadline(Milestone),
    Watch(Milestone, u64),
    Pause(Milestone, u64),
    Contexts,
    Commands,
    Events,
    Table,
    Array,
    Page { index: u16 },
    Master,
}

/// A controller that is being brought up. What ends in `_cpu` is where the processor sees memory
/// that was given out; the device sees it at the address without.
pub struct Startup {
    pub address: PciAddress,
    pub registers: KernelMmio,
    pub ticks_per_second: u64,
    pub caps: XhciCaps,
    pub bases: Bases,
    pub xecp: u16,
    pub dcbaa: u64,
    pub dcbaa_cpu: u64,
    pub cmd: u64,
    pub evt: u64,
    pub erst: u64,
    pub erst_cpu: u64,
    pub array: u64,
    pub array_cpu: u64,
    pub stage: Stage,
}

/// The next state, or the controller when it runs.
pub type Next = (Startup, Option<XhciController>);

/// Goes on to a stage.
pub open spec fn go(s: Startup, deeds: Seq<Deed>, stage: Stage) -> Planned<Next> {
    decided(deeds, Ok((Startup { stage, ..s }, None)))
}

/// Reads a register; the word is for a stage.
pub open spec fn go_read(s: Startup, deeds: Seq<Deed>, offset: int, stage: Stage) -> Planned<Next> {
    plan_read(deeds, s.registers.len, offset).and_then(
        |u: (), deeds: Seq<Deed>| go(s, deeds, stage),
    )
}

/// Asks for the time; the ticks are for a stage.
pub open spec fn go_time(s: Startup, deeds: Seq<Deed>, stage: Stage) -> Planned<Next> {
    go(s, deeds.push(Deed::Time), stage)
}

/// Asks for memory; its address is for a stage.
pub open spec fn go_allocate(
    s: Startup,
    deeds: Seq<Deed>,
    size: usize,
    align: usize,
    stage: Stage,
) -> Planned<Next> {
    go(s, deeds.push(Deed::Allocate { size, align }), stage)
}

/// Writes a register, and goes on.
pub open spec fn write_and(
    s: Startup,
    deeds: Seq<Deed>,
    offset: int,
    value: u32,
    next: spec_fn(Seq<Deed>) -> Planned<Next>,
) -> Planned<Next> {
    plan_write(deeds, s.registers.len, offset, value).and_then(
        |u: (), deeds: Seq<Deed>| next(deeds),
    )
}

/// The register that shows a milestone.
pub open spec fn shown_at(s: Startup, milestone: Milestone) -> int {
    match milestone {
        Milestone::Ownership { offset, .. } => offset as int,
        Milestone::ResetDone => s.bases.op + OP_USBCMD,
        _ => s.bases.op + OP_USBSTS,
    }
}

/// Whether a register shows that a milestone is reached.
pub open spec fn is_reached(milestone: Milestone, word: u32) -> bool {
    match milestone {
        Milestone::Ownership { .. } => word / 0x1_0000 % 2 == 0,
        Milestone::Halted => word % 2 == 1,
        Milestone::ResetDone => word / 2 % 2 == 0,
        Milestone::ReadyAgain => word / 0x800 % 2 == 0,
        Milestone::Running => word % 2 == 0,
    }
}

/// Stops the controller.
pub open spec fn stop(s: Startup, deeds: Seq<Deed>) -> Planned<Next> {
    go_read(s, deeds, s.bases.op + OP_USBCMD, Stage::Stop)
}

/// Looks at the next capability, or stops the controller if there is none.
pub open spec fn next_capability(
    s: Startup,
    deeds: Seq<Deed>,
    offset: u32,
    seen: u32,
    next: u32,
) -> Planned<Next> {
    if next == 0 {
        stop(s, deeds)
    } else if offset + next * 4 > u32::MAX {
        decided(deeds, Err(XhciError::InvalidRegister))
    } else if seen + 1 < MAX_CAPABILITIES {
        go_read(
            s,
            deeds,
            offset + next * 4,
            Stage::Legacy { offset: (offset + next * 4) as u32, seen: (seen + 1) as u32 },
        )
    } else {
        stop(s, deeds)
    }
}

/// What follows a milestone.
pub open spec fn passed(s: Startup, deeds: Seq<Deed>, milestone: Milestone) -> Planned<Next> {
    match milestone {
        Milestone::Ownership { offset, seen, next } => go_read(
            s,
            deeds,
            offset + 4,
            Stage::LegacyControl { offset, seen, next },
        ),
        Milestone::Halted => go_read(s, deeds, s.bases.op + OP_USBCMD, Stage::Reset),
        Milestone::ResetDone => go_time(s, deeds, Stage::Deadline(Milestone::ReadyAgain)),
        Milestone::ReadyAgain => go_read(s, deeds, s.bases.op + OP_PAGESIZE, Stage::PageSize),
        Milestone::Running => go(s, 
            deeds.push(Deed::EnableBusMaster { device: s.address }),
            Stage::Master,
        ),
    }
}

/// Memory that the controller reads must start at a multiple of 64.
pub open spec fn well_aligned(s: Startup) -> bool {
    s.dcbaa % 64 == 0 && s.cmd % 64 == 0 && s.evt % 64 == 0 && s.erst % 64 == 0
}

/// Fills the memory: the table of contexts starts with the controller's own pages, the command
/// ring ends with a link, and the event table names one segment.
pub open spec fn fill_memory(s: Startup, deeds: Seq<Deed>) -> Planned<()> {
    let first = Deed::Fill { base: s.dcbaa_cpu, at: 0, bytes: to_le64(s.array) };
    let segment = Deed::Fill { base: s.erst_cpu, at: 0, bytes: to_le64(s.evt) };
    let size = Deed::Fill { base: s.erst_cpu, at: 8, bytes: to_le32(EVENT_ENTRIES) };
    plan_store(deeds.push(first), s.cmd + LAST_ENTRY, link_trb(s.cmd, true, 1)).and_then(
        |u: (), deeds: Seq<Deed>| decided(deeds.push(segment).push(size), Ok(())),
    )
}

/// Tells the controller where its memory is, and reads how many slots are enabled.
pub open spec fn hand_over(s: Startup, deeds: Seq<Deed>) -> Planned<Next> {
    let len = s.registers.len;
    plan_write64(deeds.push(Deed::Fence), len, s.bases.op + OP_DCBAAP, s.dcbaa).and_then(
        |u: (), deeds: Seq<Deed>|
            plan_write64(deeds, len, s.bases.op + OP_CRCR, (s.cmd + 1) as u64).and_then(
                |u: (), deeds: Seq<Deed>|
                    write_and(
                        s,
                        deeds,
                        s.bases.rt + RT_IMAN,
                        IMAN_IP,
                        |deeds: Seq<Deed>|
                            go_read(s, deeds, s.bases.op + OP_CONFIG, Stage::Config),
                    ),
            ),
    )
}

/// Fills the memory and hands it over.
pub open spec fn publish(s: Startup, deeds: Seq<Deed>) -> Planned<Next> {
    fill_memory(s, deeds).and_then(
        |u: (), deeds: Seq<Deed>|
            if s.bases.rt + RT_IMAN > u32::MAX {
                decided(deeds, Err(XhciError::InvalidRegister))
            } else if !well_aligned(s) {
                decided(deeds, Err(XhciError::Allocation))
            } else {
                hand_over(s, deeds)
            },
    )
}

/// What follows an action that had no result.
pub open spec fn after_done(s: Startup, deeds: Seq<Deed>) -> Planned<Next> {
    match s.stage {
        Stage::Window => go_read(s, deeds, CAP_CAPLENGTH as int, Stage::Lengths),
        Stage::Master => decided(deeds, Ok((s, Some(XhciController::started(s))))),
        _ => decided(deeds, Err(XhciError::InvalidRegister)),
    }
}

/// What follows a word that tells what the controller is.
pub open spec fn after_identity(s: Startup, word: u32, deeds: Seq<Deed>) -> Planned<Next> {
    let len = s.registers.len;
    match s.stage {
        Stage::Lengths => if word % 256 < MIN_CAP_LENGTH || word % 256 >= len {
            decided(deeds, Err(XhciError::InvalidRegister))
        } else if word / 0x1_0000 < MIN_VERSION {
            decided(deeds, Err(XhciError::UnsupportedPlatform))
        } else {
            let t = Startup { bases: Bases { op: (word % 256) as u32, ..s.bases }, ..s };
            go_read(t, deeds, CAP_HCC1 as int, Stage::Parameters)
        },
        Stage::Parameters => if word % 2 == 0 {
            decided(deeds, Err(XhciError::UnsupportedPlatform))
        } else {
            let t = Startup { xecp: (word / 0x1_0000) as u16, ..s };
            go_read(t, deeds, CAP_DBOFF as int, Stage::Doorbells)
        },
        Stage::Doorbells => {
            let t = Startup { bases: Bases { db: word, ..s.bases }, ..s };
            go_read(t, deeds, CAP_RTSOFF as int, Stage::Runtime)
        },
        Stage::Runtime => {
            let t = Startup { bases: Bases { rt: word, ..s.bases }, ..s };
            if t.bases.op >= len || t.bases.db >= len || t.bases.rt >= len {
                decided(deeds, Err(XhciError::InvalidRegister))
            } else if t.xecp == 0 {
                stop(t, deeds)
            } else {
                go_read(
                    t,
                    deeds,
                    t.xecp * 4,
                    Stage::Legacy { offset: (t.xecp * 4) as u32, seen: 0 },
                )
            }
        },
        _ => decided(deeds, Err(XhciError::InvalidRegister)),
    }
}

/// What follows any word.
pub open spec fn after_word(s: Startup, word: u32, deeds: Seq<Deed>) -> Planned<Next> {
    match s.stage {
        Stage::Legacy { offset, seen } => {
            let next = word / 256 % 256;
            if word % 256 == CAPABILITY_LEGACY {
                write_and(
                    s,
                    deeds,
                    offset as int,
                    word | LEGSUP_OS_OWNED,
                    |deeds: Seq<Deed>|
                        go_time(
                            s,
                            deeds,
                            Stage::Deadline(Milestone::Ownership { offset, seen, next }),
                        ),
                )
            } else {
                next_capability(s, deeds, offset, seen, next)
            }
        },
        Stage::LegacyControl { offset, seen, next } => write_and(
            s,
            deeds,
            offset + 4,
            word & !LEGCTL_SMI_MASK,
            |deeds: Seq<Deed>| next_capability(s, deeds, offset, seen, next),
        ),
        Stage::Stop => write_and(
            s,
            deeds,
            s.bases.op + OP_USBCMD,
            word & !USBCMD_RS & !USBCMD_INTE,
            |deeds: Seq<Deed>| go_time(s, deeds, Stage::Deadline(Milestone::Halted)),
        ),
        Stage::Reset => write_and(
            s,
            deeds,
            s.bases.op + OP_USBCMD,
            (word | USBCMD_HCRST) & !USBCMD_INTE,
            |deeds: Seq<Deed>| go_time(s, deeds, Stage::Deadline(Milestone::ResetDone)),
        ),
        Stage::PageSize => if word % 2 == 0 {
            decided(deeds, Err(XhciError::UnsupportedPlatform))
        } else if s.caps.max_ports == 0 {
            decided(deeds, Err(XhciError::NoPorts))
        } else {
            go_allocate(s, deeds, DCBAA_BYTES, 64, Stage::Contexts)
        },
        Stage::Config => write_and(
            s,
            deeds,
            s.bases.op + OP_CONFIG,
            (word - word % 256 + enabled_slots(s.caps)) as u32,
            |deeds: Seq<Deed>| go_read(s, deeds, s.bases.op + OP_USBCMD, Stage::Start),
        ),
        Stage::Start => write_and(
            s,
            deeds,
            s.bases.op + OP_USBCMD,
            (word | USBCMD_RS) & !USBCMD_INTE,
            |deeds: Seq<Deed>| go_time(s, deeds, Stage::Deadline(Milestone::Running)),
        ),
        Stage::Watch(milestone, deadline) => if is_reached(milestone, word) {
            passed(s, deeds, milestone)
        } else {
            go_time(s, deeds, Stage::Pause(milestone, deadline))
        },
        _ => after_identity(s, word, deeds),
    }
}

/// The slots that are enabled: at most 32.
pub open spec fn enabled_slots(caps: XhciCaps) -> u8 {
    if caps.max_slots < 32 {
        caps.max_slots
    } else {
        32
    }
}

/// What follows when the time is told.
pub open spec fn after_ticks(s: Startup, ticks: u64, deeds: Seq<Deed>) -> Planned<Next> {
    match s.stage {
        Stage::Deadline(milestone) => go_read(
            s,
            deeds,
            shown_at(s, milestone),
            Stage::Watch(milestone, ahead(ticks, 1, s.ticks_per_second)),
        ),
        Stage::Pause(milestone, deadline) => if ticks >= deadline {
            decided(deeds, Err(XhciError::Timeout))
        } else {
            go_read(s, deeds, shown_at(s, milestone), Stage::Watch(milestone, deadline))
        },
        _ => decided(deeds, Err(XhciError::InvalidRegister)),
    }
}

/// What follows when memory is given out.
pub open spec fn after_memory(s: Startup, cpu: u64, device: u64, deeds: Seq<Deed>) -> Planned<
    Next,
> {
    match s.stage {
        Stage::Contexts => go_allocate(
            Startup { dcbaa: device, dcbaa_cpu: cpu, ..s },
            deeds,
            RING_BYTES,
            64,
            Stage::Commands,
        ),
        Stage::Commands => go_allocate(
            Startup { cmd: device, ..s },
            deeds,
            RING_BYTES,
            64,
            Stage::Events,
        ),
        Stage::Events => go_allocate(
            Startup { evt: device, ..s },
            deeds,
            ERST_BYTES,
            64,
            Stage::Table,
        ),
        Stage::Table => if s.caps.scratchpad_count == 0 {
            publish(Startup { erst: device, erst_cpu: cpu, array: 0, ..s }, deeds)
        } else {
            go_allocate(
                Startup { erst: device, erst_cpu: cpu, ..s },
                deeds,
                (s.caps.scratchpad_count * 8) as usize,
                64,
                Stage::Array,
            )
        },
        Stage::Array => go_allocate(
            Startup { array: device, array_cpu: cpu, ..s },
            deeds,
            SCRATCH_BYTES,
            SCRATCH_BYTES,
            Stage::Page { index: 0 },
        ),
        Stage::Page { index } => {
            let filled = deeds.push(
                Deed::Fill {
                    base: s.array_cpu,
                    at: (index * 8) as usize,
                    bytes: to_le64(device),
                },
            );
            if index + 1 < s.caps.scratchpad_count {
                go_allocate(
                    s,
                    filled,
                    SCRATCH_BYTES,
                    SCRATCH_BYTES,
                    Stage::Page { index: (index + 1) as u16 },
                )
            } else {
                publish(s, filled)
            }
        },
        _ => decided(deeds, Err(XhciError::InvalidRegister)),
    }
}

/// What follows an answer. An answer of another kind than what was asked for is an error.
#[verifier::opaque]
pub open spec fn startup_step(s: Startup, answer: Answer, deeds: Seq<Deed>) -> Planned<Next> {
    match answer {
        Answer::Failed(e) => decided(deeds, Err(e)),
        Answer::Done => after_done(s, deeds),
        Answer::Word(word) => after_word(s, word, deeds),
        Answer::Ticks(ticks) => after_ticks(s, ticks, deeds),
        Answer::Memory { cpu, device } => after_memory(s, cpu, device, deeds),
        _ => decided(deeds, Err(XhciError::InvalidRegister)),
    }
}

/// What a part of the startup returns and plans. A startup that failed is over: its state does
/// not matter.
pub open spec fn follows(
    r: Result<Option<XhciController>, XhciError>,
    after: Startup,
    deeds: Seq<Deed>,
    planned: Planned<Next>,
) -> bool {
    &&& deeds == planned.deeds
    &&& match planned.result {
        Ok((next, done)) => r == Ok::<_, XhciError>(done) && after == next,
        Err(e) => r == Err::<Option<XhciController>, _>(e),
    }
}

impl Startup {
    /// Goes on with an answer: plans what follows, or gives the controller when it runs.
    pub fn resume(&mut self, answer: Answer, plan: &mut Plan) -> (r: Result<
        Option<XhciController>,
        XhciError,
    >)
        ensures
            follows(r, *final(self), final(plan)@, startup_step(*old(self), answer, old(plan)@)),
            r matches Ok(Some(controller)) ==> controller.wf(),
    {
        reveal(startup_step);
        match answer {
            Answer::Failed(error) => Err(error),
            Answer::Done => self.on_done(plan),
            Answer::Word(word) => self.on_word(word, plan),
            Answer::Ticks(ticks) => self.on_ticks(ticks, plan),
            Answer::Memory { cpu, device } => self.on_memory(cpu, device, plan),
            _ => Err(XhciError::InvalidRegister),
        }
    }

    fn read(&mut self, plan: &mut Plan, base: u32, offset: u32, stage: Stage) -> (r: Result<
        Option<XhciController>,
        XhciError,
    >)
        ensures
            follows(
                r,
                *final(self),
                final(plan)@,
                go_read(*old(self), old(plan)@, base + offset, stage),
            ),
    {
        self.registers.read(plan, base, offset)?;
        self.stage = stage;
        Ok(None)
    }

    fn time(&mut self, plan: &mut Plan, stage: Stage) -> (r: Result<
        Option<XhciController>,
        XhciError,
    >)
        ensures
            follows(r, *final(self), final(plan)@, go_time(*old(self), old(plan)@, stage)),
    {
        plan.push(Action::Time);
        self.stage = stage;
        Ok(None)
    }

    fn allocate(&mut self, plan: &mut Plan, size: usize, align: usize, stage: Stage) -> (r: Result<
        Option<XhciController>,
        XhciError,
    >)
        ensures
            follows(
                r,
                *final(self),
                final(plan)@,
                go_allocate(*old(self), old(plan)@, size, align, stage),
            ),
    {
        plan.push(Action::Allocate { size, align });
        self.stage = stage;
        Ok(None)
    }

    fn on_done(&mut self, plan: &mut Plan) -> (r: Result<Option<XhciController>, XhciError>)
        ensures
            follows(r, *final(self), final(plan)@, after_done(*old(self), old(plan)@)),
    {
        match self.stage {
            Stage::Window => self.read(plan, CAP_CAPLENGTH, 0, Stage::Lengths),
            Stage::Master => Ok(Some(XhciController::new(self))),
            _ => Err(XhciError::InvalidRegister),
        }
    }

    fn on_identity(&mut self, word: u32, plan: &mut Plan) -> (r: Result<
        Option<XhciController>,
        XhciError,
    >)
        ensures
            follows(r, *final(self), final(plan)@, after_identity(*old(self), word, old(plan)@)),
    {
        let len: usize = self.registers.len;
        match self.stage {
            Stage::Lengths => {
                let cap_length: u32 = word % 256;
                if cap_length < MIN_CAP_LENGTH || cap_length as usize >= len {
                    return Err(XhciError::InvalidRegister);
                }
                if word / 0x1_0000 < MIN_VERSION {
                    return Err(XhciError::UnsupportedPlatform);
                }
                self.bases.op = cap_length;
                self.read(plan, CAP_HCC1, 0, Stage::Parameters)
            },
            Stage::Parameters => {
                if word % 2 == 0 {
                    return Err(XhciError::UnsupportedPlatform);
                }
                self.xecp = (word / 0x1_0000) as u16;
                self.read(plan, CAP_DBOFF, 0, Stage::Doorbells)
            },
            Stage::Doorbells => {
                self.bases.db = word;
                self.read(plan, CAP_RTSOFF, 0, Stage::Runtime)
            },
            Stage::Runtime => {
                self.bases.rt = word;
                if self.bases.op as usize >= len || self.bases.db as usize >= len
                    || self.bases.rt as usize >= len {
                    return Err(XhciError::InvalidRegister);
                }
                if self.xecp == 0 {
                    return self.stop(plan);
                }
                let offset: u32 = self.xecp as u32 * 4;
                self.read(plan, offset, 0, Stage::Legacy { offset, seen: 0 })
            },
            _ => Err(XhciError::InvalidRegister),
        }
    }

    fn stop(&mut self, plan: &mut Plan) -> (r: Result<Option<XhciController>, XhciError>)
        ensures
            follows(r, *final(self), final(plan)@, stop(*old(self), old(plan)@)),
    {
        self.read(plan, self.bases.op, OP_USBCMD, Stage::Stop)
    }

    fn next_capability(&mut self, plan: &mut Plan, offset: u32, seen: u32, next: u32) -> (r: Result<
        Option<XhciController>,
        XhciError,
    >)
        ensures
            follows(
                r,
                *final(self),
                final(plan)@,
                next_capability(*old(self), old(plan)@, offset, seen, next),
            ),
    {
        if next == 0 {
            return self.stop(plan);
        }
        let further: u64 = offset as u64 + next as u64 * 4;
        if further > u32::MAX as u64 {
            return Err(XhciError::InvalidRegister);
        }
        let further: u32 = further as u32;
        if seen < MAX_CAPABILITIES - 1 {
            self.read(plan, further, 0, Stage::Legacy { offset: further, seen: seen + 1 })
        } else {
            self.stop(plan)
        }
    }

    fn on_word(&mut self, word: u32, plan: &mut Plan) -> (r: Result<
        Option<XhciController>,
        XhciError,
    >)
        ensures
            follows(r, *final(self), final(plan)@, after_word(*old(self), word, old(plan)@)),
    {
        let op: u32 = self.bases.op;
        match self.stage {
            Stage::Legacy { offset, seen } => {
                let next: u32 = word / 256 % 256;
                if word % 256 == CAPABILITY_LEGACY {
                    self.registers.write(plan, offset, 0, word | LEGSUP_OS_OWNED)?;
                    self.time(plan, Stage::Deadline(Milestone::Ownership { offset, seen, next }))
                } else {
                    self.next_capability(plan, offset, seen, next)
                }
            },
            Stage::LegacyControl { offset, seen, next } => {
                self.registers.write(plan, offset, 4, word & !LEGCTL_SMI_MASK)?;
                self.next_capability(plan, offset, seen, next)
            },
            Stage::Stop => {
                self.registers.write(plan, op, OP_USBCMD, word & !USBCMD_RS & !USBCMD_INTE)?;
                self.time(plan, Stage::Deadline(Milestone::Halted))
            },
            Stage::Reset => {
                self.registers.write(plan, op, OP_USBCMD, (word | USBCMD_HCRST) & !USBCMD_INTE)?;
                self.time(plan, Stage::Deadline(Milestone::ResetDone))
            },
            Stage::PageSize => {
                if word % 2 == 0 {
                    return Err(XhciError::UnsupportedPlatform);
                }
                if self.caps.max_ports == 0 {
                    return Err(XhciError::NoPorts);
                }
                self.allocate(plan, DCBAA_BYTES, 64, Stage::Contexts)
            },
            Stage::Config => {
                let slots: u8 = max_slots_en(self.caps.max_slots);
                self.registers.write(plan, op, OP_CONFIG, word - word % 256 + slots as u32)?;
                self.read(plan, op, OP_USBCMD, Stage::Start)
            },
            Stage::Start => {
                self.registers.write(plan, op, OP_USBCMD, (word | USBCMD_RS) & !USBCMD_INTE)?;
                self.time(plan, Stage::Deadline(Milestone::Running))
            },
            Stage::Watch(milestone, deadline) => {
                if reached(milestone, word) {
                    self.pass(plan, milestone)
                } else {
                    self.time(plan, Stage::Pause(milestone, deadline))
                }
            },
            _ => self.on_identity(word, plan),
        }
    }

    fn pass(&mut self, plan: &mut Plan, milestone: Milestone) -> (r: Result<
        Option<XhciController>,
        XhciError,
    >)
        ensures
            follows(r, *final(self), final(plan)@, passed(*old(self), old(plan)@, milestone)),
    {
        let op: u32 = self.bases.op;
        match milestone {
            Milestone::Ownership { offset, seen, next } => self.read(
                plan,
                offset,
                4,
                Stage::LegacyControl { offset, seen, next },
            ),
            Milestone::Halted => self.read(plan, op, OP_USBCMD, Stage::Reset),
            Milestone::ResetDone => self.time(plan, Stage::Deadline(Milestone::ReadyAgain)),
            Milestone::ReadyAgain => self.read(plan, op, OP_PAGESIZE, Stage::PageSize),
            Milestone::Running => {
                plan.push(Action::EnableBusMaster { device: self.address });
                self.stage = Stage::Master;
                Ok(None)
            },
        }
    }

    /// Reads the register that shows a milestone.
    fn look(&mut self, plan: &mut Plan, milestone: Milestone, deadline: u64) -> (r: Result<
        Option<XhciController>,
        XhciError,
    >)
        ensures
            follows(
                r,
                *final(self),
                final(plan)@,
                go_read(
                    *old(self),
                    old(plan)@,
                    shown_at(*old(self), milestone),
                    Stage::Watch(milestone, deadline),
                ),
            ),
    {
        let op: u32 = self.bases.op;
        let stage = Stage::Watch(milestone, deadline);
        match milestone {
            Milestone::Ownership { offset, .. } => self.read(plan, offset, 0, stage),
            Milestone::ResetDone => self.read(plan, op, OP_USBCMD, stage),
            _ => self.read(plan, op, OP_USBSTS, stage),
        }
    }

    fn on_ticks(&mut self, ticks: u64, plan: &mut Plan) -> (r: Result<
        Option<XhciController>,
        XhciError,
    >)
        ensures
            follows(r, *final(self), final(plan)@, after_ticks(*old(self), ticks, old(plan)@)),
    {
        match self.stage {
            Stage::Deadline(milestone) => {
                let deadline: u64 = deadline_after(ticks, 1, self.ticks_per_second);
                self.look(plan, milestone, deadline)
            },
            Stage::Pause(milestone, deadline) => {
                if ticks >= deadline {
                    return Err(XhciError::Timeout);
                }
                self.look(plan, milestone, deadline)
            },
            _ => Err(XhciError::InvalidRegister),
        }
    }

    fn on_memory(&mut self, cpu: u64, device: u64, plan: &mut Plan) -> (r: Result<
        Option<XhciController>,
        XhciError,
    >)
        ensures
            follows(
                r,
                *final(self),
                final(plan)@,
                after_memory(*old(self), cpu, device, old(plan)@),
            ),
    {
        match self.stage {
            Stage::Contexts => {
                self.dcbaa = device;
                self.dcbaa_cpu = cpu;
                self.allocate(plan, RING_BYTES, 64, Stage::Commands)
            },
            Stage::Commands => {
                self.cmd = device;
                self.allocate(plan, RING_BYTES, 64, Stage::Events)
            },
            Stage::Events => {
                self.evt = device;
                self.allocate(plan, ERST_BYTES, 64, Stage::Table)
            },
            Stage::Table => {
                self.erst = device;
                self.erst_cpu = cpu;
                if self.caps.scratchpad_count == 0 {
                    self.array = 0;
                    self.publish(plan)
                } else {
                    let size: usize = self.caps.scratchpad_count as usize * 8;
                    self.allocate(plan, size, 64, Stage::Array)
                }
            },
            Stage::Array => {
                self.array = device;
                self.array_cpu = cpu;
                self.allocate(plan, SCRATCH_BYTES, SCRATCH_BYTES, Stage::Page { index: 0 })
            },
            Stage::Page { index } => {
                plan.fill_u64(self.array_cpu, index as usize * 8, device);
                if (index as u32 + 1) < self.caps.scratchpad_count as u32 {
                    self.allocate(
                        plan,
                        SCRATCH_BYTES,
                        SCRATCH_BYTES,
                        Stage::Page { index: index + 1 },
                    )
                } else {
                    self.publish(plan)
                }
            },
            _ => Err(XhciError::InvalidRegister),
        }
    }

    fn fill_memory(&self, plan: &mut Plan) -> (r: Result<(), XhciError>)
        ensures
            (Planned { result: r, deeds: final(plan)@ }) == fill_memory(*self, old(plan)@),
    {
        let link = encode_link(self.cmd, true, 1);
        plan.fill_u64(self.dcbaa_cpu, 0, self.array);
        plan.store(self.cmd, LAST_ENTRY, &link)?;
        plan.fill_u64(self.erst_cpu, 0, self.evt);
        plan.fill_u32(self.erst_cpu, 8, EVENT_ENTRIES);
        Ok(())
    }

    fn publish(&mut self, plan: &mut Plan) -> (r: Result<Option<XhciController>, XhciError>)
        ensures
            follows(r, *final(self), final(plan)@, publish(*old(self), old(plan)@)),
    {
        self.fill_memory(plan)?;
        if self.bases.rt > u32::MAX - RT_IMAN {
            return Err(XhciError::InvalidRegister);
        }
        if self.dcbaa % 64 != 0 || self.cmd % 64 != 0 || self.evt % 64 != 0 || self.erst % 64 != 0 {
            return Err(XhciError::Allocation);
        }
        plan.push(Action::Fence);
        self.registers.write64(plan, self.bases.op, OP_DCBAAP, self.dcbaa)?;
        self.registers.write64(plan, self.bases.op, OP_CRCR, self.cmd + 1)?;
        self.registers.write(plan, self.bases.rt, RT_IMAN, IMAN_IP)?;
        self.read(plan, self.bases.op, OP_CONFIG, Stage::Config)
    }
}

/// Whether a stage looks for a milestone.
pub open spec fn watches(stage: Stage, milestone: Milestone) -> bool {
    match stage {
        Stage::Watch(watched, _) => watched == milestone,
        _ => false,
    }
}

/// The steps of a startup keep their order: memory is asked for only after the reset, the
/// controller is started only after it was told where its memory is, which is aligned, and it may
/// reach memory on its own only after it was seen to run.
pub proof fn law_startup_keeps_its_order(s: Startup, answer: Answer, deeds: Seq<Deed>)
    ensures
        startup_step(s, answer, deeds).result matches Ok((t, done)) ==> {
            &&& t.stage is Contexts ==> s.stage is PageSize
            &&& t.stage is PageSize ==> watches(s.stage, Milestone::ReadyAgain)
            &&& t.stage is Config ==> well_aligned(t) && ({
                let told = startup_step(s, answer, deeds).deeds;
                let n = told.len();
                let op = t.bases.op;
                &&& told[n - 7] is Fence
                &&& told[n - 6] == Deed::Write {
                    offset: (op + OP_DCBAAP) as u32,
                    value: (t.dcbaa % 0x1_0000_0000) as u32,
                }
                &&& told[n - 5] == Deed::Write {
                    offset: (op + OP_DCBAAP + 4) as u32,
                    value: (t.dcbaa / 0x1_0000_0000) as u32,
                }
                &&& told[n - 4] == Deed::Write {
                    offset: (op + OP_CRCR) as u32,
                    value: ((t.cmd + 1) % 0x1_0000_0000) as u32,
                }
                &&& told[n - 3] == Deed::Write {
                    offset: (op + OP_CRCR + 4) as u32,
                    value: ((t.cmd + 1) / 0x1_0000_0000) as u32,
                }
            })
            &&& t.stage is Start ==> s.stage is Config
            &&& t.stage == Stage::Deadline(Milestone::Running) ==> s.stage is Start
            &&& t.stage is Master && done is None ==> watches(s.stage, Milestone::Running)
                && answer is Word && answer->Word_0 % 2 == 0
            &&& done is Some ==> s.stage is Master && answer is Done
        },
{
    reveal(startup_step);
}

/// The memory is filled, where the processor sees it, before the controller is told where it is:
/// the table of contexts starts with the array of the controller's own pages, the command ring
/// ends with a link to its start, and the event table names the one segment and its size.
pub proof fn law_memory_is_filled_before_it_is_handed_over(s: Startup, deeds: Seq<Deed>)
    requires
        publish(s, deeds).result is Ok,
    ensures
        ({
            let told = publish(s, deeds).deeds;
            let n = deeds.len() as int;
            &&& told[n] == Deed::Fill { base: s.dcbaa_cpu, at: 0, bytes: to_le64(s.array) }
            &&& told[n + 1] == Deed::Store {
                address: (s.cmd + LAST_ENTRY) as u64,
                bytes: link_trb(s.cmd, true, 1),
            }
            &&& told[n + 2] == Deed::Fill { base: s.erst_cpu, at: 0, bytes: to_le64(s.evt) }
            &&& told[n + 3] == Deed::Fill {
                base: s.erst_cpu,
                at: 8,
                bytes: to_le32(EVENT_ENTRIES),
            }
            &&& told[n + 4] is Fence
        }),
{
}

/// A startup keeps the address that its controller was found at, and lets no other device reach
/// memory.
pub proof fn law_startup_keeps_its_address(s: Startup, answer: Answer, deeds: Seq<Deed>)
    ensures
        startup_step(s, answer, deeds).result matches Ok((t, _)) ==> t.address == s.address,
        startup_step(s, answer, deeds).result matches Ok((t, None)) ==> (t.stage is Master
            ==> startup_step(s, answer, deeds).deeds == deeds.push(
            Deed::EnableBusMaster { device: s.address },
        )),
{
    reveal(startup_step);
}

/// The controller is never allowed to interrupt: whatever the command register holds, it is
/// written back with the flag clear.
pub proof fn law_interrupts_stay_off(s: Startup, word: u32, deeds: Seq<Deed>)
    requires
        s.stage is Stop || s.stage is Reset || s.stage is Start,
        after_word(s, word, deeds).result is Ok,
    ensures
        after_word(s, word, deeds).deeds[deeds.len() as int] matches Deed::Write { offset, value }
            && offset == s.bases.op + OP_USBCMD && value & USBCMD_INTE == 0,
{
    assert(((word & !1u32) & !4u32) & 4u32 == 0) by (bit_vector);
    assert(((word | 2u32) & !4u32) & 4u32 == 0) by (bit_vector);
    assert(((word | 1u32) & !4u32) & 4u32 == 0) by (bit_vector);
}

/// A wait ends at its deadline, which is a second after it began and does not move.
pub proof fn law_waiting_ends(s: Startup, milestone: Milestone, deadline: u64, ticks: u64)
    requires
        s.stage == Stage::Pause(milestone, deadline),
    ensures
        ticks >= deadline ==> after_ticks(s, ticks, seq![]).result == Err::<Next, _>(
            XhciError::Timeout,
        ),
        after_ticks(s, ticks, seq![]).result matches Ok((t, _)) ==> t.stage == Stage::Watch(
            milestone,
            deadline,
        ),
        after_ticks(Startup { stage: Stage::Deadline(milestone), ..s }, ticks, seq![]).result
            matches Ok((t, _)) ==> t.stage == Stage::Watch(
            milestone,
            ahead(ticks, 1, s.ticks_per_second),
        ),
{
}

/// Whether a register shows that a milestone is reached.
fn reached(milestone: Milestone, word: u32) -> (r: bool)
    ensures
        r == is_reached(milestone, word),
{
    match milestone {
        Milestone::Ownership { .. } => word / 0x1_0000 % 2 == 0,
        Milestone::Halted => word % 2 == 1,
        Milestone::ResetDone => word / 2 % 2 == 0,
        Milestone::ReadyAgain => word / 0x800 % 2 == 0,
        Milestone::Running => word % 2 == 0,
    }
}

} // verus!
