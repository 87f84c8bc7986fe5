//! Setting up the endpoints of a device.
use vstd::prelude::*;

use crate::xhci::{
    control_word, encode_config_ep, trb_of, EndpointConfig, XhciError, TYPE_CONFIGURE,
};
use crate::xhci::address::{
    input_ep_offset, input_place, plan_endpoint, plan_input_control, plan_slot_context,
    write_ep_context, write_input_control, write_slot_context, EndpointContext, INPUT_CONTEXT_BYTES,
    RING_SEGMENT_BYTES,
};
use crate::xhci::context::{dci, dci_of};
use crate::xhci::controller::{command_step, run, Run, XhciController};
use crate::xhci::plan::{decided, Action, Answer, Deed, Plan, Planned};
use crate::xhci::transfer::{new_ring, ring_step, EndpointEntry, TransferRing, UsbDevice};
use crate::xhci::wait::{new_wait, wait_step, Awaited, EventWait, WaitStage, Waited};

verus! {

pub const EP_TYPE_BULK_OUT: u8 = 2;

pub const EP_TYPE_BULK_IN: u8 = 6;

pub const EP_TYPE_INT_OUT: u8 = 3;

pub const EP_TYPE_INT_IN: u8 = 7;

/// The type of an endpoint: 2 and 3 are bulk and interrupt transfers.
pub open spec fn endpoint_type(transfer_type: u8, dir_in: bool) -> Option<u8> {
    if transfer_type == 2 {
        Some(if dir_in {
            EP_TYPE_BULK_IN
        } else {
            EP_TYPE_BULK_OUT
        })
    } else if transfer_type == 3 {
        Some(if dir_in {
            EP_TYPE_INT_IN
        } else {
            EP_TYPE_INT_OUT
        })
    } else {
        None
    }
}

/// An endpoint that is being set up.
#[derive(Clone, Copy, Debug, PartialEq, Eq, Structural)]
pub struct Staged {
    pub config: EndpointConfig,
    pub dci: u8,
    pub dir_in: bool,
    pub ep_type: u8,
    pub ring: TransferRing,
}

/// The direction of an endpoint.
pub open spec fn inbound(config: EndpointConfig) -> bool {
    config.address >= 0x80
}

/// The index of an endpoint's context.
pub open spec fn index_of(config: EndpointConfig) -> int {
    dci_of((config.address % 16) as u8, inbound(config))
}

/// Whether an index is among those being set up.
pub open spec fn is_staged(staged: Seq<Staged>, dci: int) -> bool {
    exists|i: int| 0 <= i < staged.len() && (#[trigger] staged[i]).dci == dci
}

/// What is wrong with an endpoint: it is the one for control, it has no packets, its type is not
/// driven, or it is there twice.
pub open spec fn refused(staged: Seq<Staged>, config: EndpointConfig) -> bool {
    ||| config.address % 16 == 0
    ||| config.max_packet_size == 0
    ||| endpoint_type(config.transfer_type, inbound(config)) is None
    ||| is_staged(staged, index_of(config))
}

/// An endpoint with its ring.
pub open spec fn stage_of(config: EndpointConfig, ring: TransferRing) -> Staged {
    Staged {
        config,
        dci: index_of(config) as u8,
        dir_in: inbound(config),
        ep_type: endpoint_type(config.transfer_type, inbound(config))->0,
        ring,
    }
}

/// The contexts that are new: that of the slot, and one for each endpoint.
pub open spec fn add_flags(staged: Seq<Staged>) -> u32
    decreases staged.len(),
{
    if staged.len() == 0 {
        1
    } else {
        add_flags(staged.drop_last()) | (1u32 << staged.last().dci as u32)
    }
}

/// The last context in use.
pub open spec fn last_context(staged: Seq<Staged>) -> u8
    decreases staged.len(),
{
    if staged.len() == 0 {
        1
    } else {
        let before = last_context(staged.drop_last());
        if before < staged.last().dci {
            staged.last().dci
        } else {
            before
        }
    }
}

/// What the controller is told of an endpoint.
pub open spec fn context_of(staged: Staged) -> EndpointContext {
    let size = staged.config.max_packet_size;
    EndpointContext {
        max_packet: size,
        interval: staged.config.interval,
        burst: staged.config.max_burst,
        ep_type: staged.ep_type,
        dequeue: (staged.ring.phys - staged.ring.phys % 2 + 1) as u64,
        average: if size < 1024 {
            size
        } else {
            1024
        },
        payload: size,
    }
}

/// Describes endpoints from one on.
pub open spec fn plan_contexts(
    deeds: Seq<Deed>,
    input: u64,
    is_64: bool,
    staged: Seq<Staged>,
    from: int,
) -> Planned<()>
    decreases staged.len() - from,
{
    if from < 0 || from >= staged.len() {
        decided(deeds, Ok(()))
    } else {
        plan_endpoint(
            deeds,
            input,
            input_place(staged[from].dci, is_64),
            context_of(staged[from]),
        ).and_then(
            |u: (), deeds: Seq<Deed>| plan_contexts(deeds, input, is_64, staged, from + 1),
        )
    }
}

#[derive(Clone, Copy, Debug, PartialEq, Eq, Structural)]
pub enum ConfigureStage {
    Ring,
    Input,
    Wait,
}

/// Endpoints that are being set up.
pub struct Configuring {
    pub configs: Vec<EndpointConfig>,
    pub staged: Vec<Staged>,
    pub wait: EventWait,
    pub stage: ConfigureStage,
}

/// The model of endpoints that are being set up.
pub struct ConfiguringView {
    pub configs: Seq<EndpointConfig>,
    pub staged: Seq<Staged>,
    pub wait: EventWait,
    pub stage: ConfigureStage,
}

impl View for Configuring {
    type V = ConfiguringView;

    open spec fn view(&self) -> ConfiguringView {
        ConfiguringView {
            configs: self.configs@,
            staged: self.staged@,
            wait: self.wait,
            stage: self.stage,
        }
    }
}

/// The next state, or the endpoints when they are set up.
pub type Next = (ConfiguringView, Option<Seq<EndpointEntry>>);

/// Goes on with the next endpoint, or with the contexts if there is none.
pub open spec fn next_endpoint(s: ConfiguringView, deeds: Seq<Deed>) -> Planned<ConfiguringView> {
    if s.staged.len() >= s.configs.len() {
        decided(
            deeds.push(Deed::Allocate { size: INPUT_CONTEXT_BYTES, align: 64 }),
            Ok(ConfiguringView { stage: ConfigureStage::Input, ..s }),
        )
    } else if refused(s.staged, s.configs[s.staged.len() as int]) {
        decided(deeds, Err(XhciError::TransferFailed(0)))
    } else {
        decided(
            deeds.push(Deed::Allocate { size: RING_SEGMENT_BYTES, align: 64 }),
            Ok(ConfiguringView { stage: ConfigureStage::Ring, ..s }),
        )
    }
}

/// Begins to set up endpoints.
pub open spec fn configure_start(
    configs: Seq<EndpointConfig>,
    wait: EventWait,
    deeds: Seq<Deed>,
) -> Planned<
    ConfiguringView,
> {
    if configs.len() == 0 {
        decided(deeds, Err(XhciError::TransferFailed(0)))
    } else {
        next_endpoint(
            ConfiguringView { configs, staged: seq![], wait, stage: ConfigureStage::Ring },
            deeds,
        )
    }
}

/// Describes the slot and its endpoints.
pub open spec fn describe(
    c: XhciController,
    device: UsbDevice,
    s: ConfiguringView,
    deeds: Seq<Deed>,
    input: u64,
) -> Planned<()> {
    plan_input_control(deeds, input, add_flags(s.staged)).and_then(
        |u: (), deeds: Seq<Deed>|
            plan_slot_context(
                deeds,
                input,
                device.device.speed_raw,
                device.device.handle.root_port,
                last_context(s.staged),
            ).and_then(
                |u: (), deeds: Seq<Deed>|
                    plan_contexts(deeds, input, c.caps.context_64, s.staged, 0),
            ),
    )
}

/// The command that sets up endpoints.
pub open spec fn configure_entry(input: u64, slot: u8) -> Seq<u8> {
    trb_of(input, 0, control_word(TYPE_CONFIGURE, 0, slot * 0x100_0000))
}

/// The endpoints that were set up.
pub open spec fn entries_of(staged: Seq<Staged>) -> Seq<EndpointEntry> {
    Seq::new(
        staged.len(),
        |i: int|
            EndpointEntry {
                dci: staged[i].dci,
                dir_in: staged[i].dir_in,
                ring: staged[i].ring,
            },
    )
}

/// What follows an answer.
pub open spec fn configure_step(
    c: XhciController,
    device: UsbDevice,
    s: ConfiguringView,
    answer: Answer,
    deeds: Seq<Deed>,
) -> Run<XhciController, Next> {
    match s.stage {
        ConfigureStage::Wait => wait_step(c, s.wait, answer, deeds).and_then(
            |waited: Waited, c: XhciController, deeds: Seq<Deed>|
                match waited {
                    (wait, None) => run(
                        c,
                        decided(deeds, Ok((ConfiguringView { wait, ..s }, None))),
                    ),
                    (wait, Some(_)) => run(
                        c,
                        decided(deeds, Ok((s, Some(entries_of(s.staged))))),
                    ),
                },
        ),
        ConfigureStage::Ring => match answer {
            Answer::Failed(e) => run(c, decided(deeds, Err(e))),
            Answer::Memory { device: address, .. } => if s.staged.len() >= s.configs.len() {
                run(c, decided(deeds, Err(XhciError::InvalidRegister)))
            } else {
                run(c, ring_step(deeds, address)).and_then(
                    |ring: TransferRing, c: XhciController, deeds: Seq<Deed>|
                        run(
                            c,
                            next_endpoint(
                                ConfiguringView {
                                    staged: s.staged.push(
                                        stage_of(s.configs[s.staged.len() as int], ring),
                                    ),
                                    ..s
                                },
                                deeds,
                            ),
                        ).and_then(
                            |s: ConfiguringView, c: XhciController, deeds: Seq<Deed>|
                                run(c, decided(deeds, Ok((s, None)))),
                        ),
                )
            },
            _ => run(c, decided(deeds, Err(XhciError::InvalidRegister))),
        },
        ConfigureStage::Input => match answer {
            Answer::Failed(e) => run(c, decided(deeds, Err(e))),
            Answer::Memory { device: address, .. } => run(
                c,
                describe(c, device, s, deeds, address),
            ).and_then(
                |u: (), c: XhciController, deeds: Seq<Deed>|
                    command_step(
                        c,
                        deeds,
                        configure_entry(address, device.device.handle.slot_id),
                    ).and_then(
                        |place: u64, c: XhciController, deeds: Seq<Deed>|
                            run(
                                c,
                                decided(
                                    deeds.push(Deed::Time),
                                    Ok(
                                        (
                                            ConfiguringView {
                                                wait: new_wait(
                                                    place,
                                                    Awaited::Command {
                                                        slot: device.device.handle.slot_id,
                                                    },
                                                ),
                                                stage: ConfigureStage::Wait,
                                                ..s
                                            },
                                            None,
                                        ),
                                    ),
                                ),
                            ),
                    ),
            ),
            _ => run(c, decided(deeds, Err(XhciError::InvalidRegister))),
        },
    }
}

/// The type of an endpoint.
fn xhci_ep_type(transfer_type: u8, dir_in: bool) -> (r: Option<u8>)
    ensures
        r == endpoint_type(transfer_type, dir_in),
{
    if transfer_type == 2 {
        Some(if dir_in {
            EP_TYPE_BULK_IN
        } else {
            EP_TYPE_BULK_OUT
        })
    } else if transfer_type == 3 {
        Some(if dir_in {
            EP_TYPE_INT_IN
        } else {
            EP_TYPE_INT_OUT
        })
    } else {
        None
    }
}

/// What the controller is told of an endpoint.
fn endpoint_context(staged: &Staged) -> (context: EndpointContext)
    ensures
        context == context_of(*staged),
{
    let size: u16 = staged.config.max_packet_size;
    EndpointContext {
        max_packet: size,
        interval: staged.config.interval,
        burst: staged.config.max_burst,
        ep_type: staged.ep_type,
        dequeue: staged.ring.phys - staged.ring.phys % 2 + 1,
        average: if size < 1024 {
            size
        } else {
            1024
        },
        payload: size,
    }
}

/// An endpoint without a ring, unless something is wrong with it.
fn accept(staged: &Vec<Staged>, config: EndpointConfig) -> (r: Option<Staged>)
    ensures
        match r {
            None => refused(staged@, config),
            Some(stage) => !refused(staged@, config) && stage == stage_of(config, stage.ring)
                && 2 <= stage.dci < 32,
        },
{
    let dir_in: bool = config.address >= 0x80;
    let number: u8 = config.address % 16;
    if number == 0 || config.max_packet_size == 0 {
        return None;
    }
    let dci: u8 = dci(number, dir_in);
    let ep_type: u8 = match xhci_ep_type(config.transfer_type, dir_in) {
        Some(ep_type) => ep_type,
        None => return None,
    };
    let mut i: usize = 0;
    while i < staged.len()
        invariant
            i <= staged@.len(),
            dci == index_of(config),
            forall|k: int| 0 <= k < i ==> (#[trigger] staged@[k]).dci != dci,
        decreases staged@.len() - i,
    {
        if staged[i].dci == dci {
            assert(is_staged(staged@, dci as int)) by {
                assert(staged@[i as int].dci == dci);
            }
            return None;
        }
        i = i + 1;
    }
    Some(
        Staged {
            config,
            dci,
            dir_in,
            ep_type,
            ring: TransferRing { phys: 0, enqueue: 0, cycle: true },
        },
    )
}

impl Configuring {
    /// The rings are used within their bounds, and each endpoint has its own context.
    pub open spec fn wf(self) -> bool {
        &&& self.staged@.len() <= self.configs@.len()
        &&& forall|i: int|
            0 <= i < self.staged@.len() ==> (#[trigger] self.staged@[i]).ring.wf() && 2
                <= self.staged@[i].dci < 32
        &&& self.stage is Ring ==> self.staged@.len() < self.configs@.len() && !refused(
            self.staged@,
            self.configs@[self.staged@.len() as int],
        )
    }

    /// Goes on with the next endpoint, or with the contexts.
    fn next_endpoint(&mut self, plan: &mut Plan) -> (r: Result<(), XhciError>)
        requires
            old(self).staged@.len() <= old(self).configs@.len(),
            forall|i: int|
                0 <= i < old(self).staged@.len() ==> (#[trigger] old(self).staged@[i]).ring.wf()
                    && 2 <= old(self).staged@[i].dci < 32,
        ensures
            r is Ok ==> final(self).wf(),
            ({
                let step = next_endpoint(old(self)@, old(plan)@);
                &&& final(plan)@ == step.deeds
                &&& match step.result {
                    Ok(next) => r is Ok && final(self)@ == next,
                    Err(e) => r == Err::<(), _>(e),
                }
            }),
    {
        let index: usize = self.staged.len();
        if index >= self.configs.len() {
            plan.push(Action::Allocate { size: INPUT_CONTEXT_BYTES, align: 64 });
            self.stage = ConfigureStage::Input;
            return Ok(());
        }
        if accept(&self.staged, self.configs[index]).is_none() {
            return Err(XhciError::TransferFailed(0));
        }
        plan.push(Action::Allocate { size: RING_SEGMENT_BYTES, align: 64 });
        self.stage = ConfigureStage::Ring;
        Ok(())
    }

    /// Adds the endpoint whose ring is in new memory.
    fn add(&mut self, address: u64, plan: &mut Plan) -> (r: Result<(), XhciError>)
        requires
            old(self).wf(),
            old(self).stage is Ring,
        ensures
            r is Ok ==> final(self).wf(),
            ({
                let s = old(self)@;
                let step = ring_step(old(plan)@, address).and_then(
                    |ring: TransferRing, deeds: Seq<Deed>|
                        next_endpoint(
                            ConfiguringView {
                                staged: s.staged.push(
                                    stage_of(s.configs[s.staged.len() as int], ring),
                                ),
                                ..s
                            },
                            deeds,
                        ),
                );
                &&& final(plan)@ == step.deeds
                &&& match step.result {
                    Ok(next) => r is Ok && final(self)@ == next,
                    Err(e) => r == Err::<(), _>(e),
                }
            }),
    {
        let index: usize = self.staged.len();
        let ring: TransferRing = new_ring(address, plan)?;
        match accept(&self.staged, self.configs[index]) {
            Some(stage) => {
                let mut stage = stage;
                stage.ring = ring;
                self.staged.push(stage);
            },
            None => {},
        }
        self.next_endpoint(plan)
    }

    /// The contexts that are new, and the last in use.
    fn summary(&self) -> (r: (u32, u8))
        requires
            forall|i: int| 0 <= i < self.staged@.len() ==> (#[trigger] self.staged@[i]).dci < 32,
        ensures
            r == (add_flags(self.staged@), last_context(self.staged@)),
    {
        let mut flags: u32 = 1;
        let mut last: u8 = 1;
        let mut i: usize = 0;
        assert(self.staged@.take(0) =~= seq![]);
        while i < self.staged.len()
            invariant
                i <= self.staged@.len(),
                flags == add_flags(self.staged@.take(i as int)),
                last == last_context(self.staged@.take(i as int)),
                forall|k: int|
                    0 <= k < self.staged@.len() ==> (#[trigger] self.staged@[k]).dci < 32,
            decreases self.staged@.len() - i,
        {
            let dci: u8 = self.staged[i].dci;
            assert(self.staged@.take(i + 1).drop_last() =~= self.staged@.take(i as int));
            flags = flags | (1u32 << dci as u32);
            if last < dci {
                last = dci;
            }
            i = i + 1;
        }
        assert(self.staged@.take(i as int) =~= self.staged@);
        (flags, last)
    }

    /// Describes the slot and its endpoints.
    fn describe(
        &self,
        controller: &XhciController,
        device: &UsbDevice,
        input: u64,
        plan: &mut Plan,
    ) -> (r: Result<(), XhciError>)
        requires
            self.wf(),
        ensures
            (Planned { result: r, deeds: final(plan)@ }) == describe(
                *controller,
                *device,
                self@,
                old(plan)@,
                input,
            ),
    {
        let (flags, last): (u32, u8) = self.summary();
        write_input_control(plan, input, flags)?;
        write_slot_context(
            plan,
            input,
            device.device.speed_raw,
            device.device.handle.root_port,
            last,
        )?;
        self.describe_endpoints(controller.caps.context_64, input, plan)
    }

    /// Describes the endpoints.
    fn describe_endpoints(&self, is_64: bool, input: u64, plan: &mut Plan) -> (r: Result<
        (),
        XhciError,
    >)
        ensures
            (Planned { result: r, deeds: final(plan)@ }) == plan_contexts(
                old(plan)@,
                input,
                is_64,
                self.staged@,
                0,
            ),
    {
        let ghost whole = plan_contexts(plan@, input, is_64, self.staged@, 0);
        let mut i: usize = 0;
        while i < self.staged.len()
            invariant
                i <= self.staged@.len(),
                whole == plan_contexts(old(plan)@, input, is_64, self.staged@, 0),
                whole == plan_contexts(plan@, input, is_64, self.staged@, i as int),
            decreases self.staged@.len() - i,
        {
            let staged: Staged = self.staged[i];
            let context = endpoint_context(&staged);
            write_ep_context(plan, input, input_ep_offset(staged.dci, is_64), context)?;
            i = i + 1;
        }
        Ok(())
    }

    /// Goes on with an answer. The device has the endpoints when it gives `true`.
    pub fn resume(
        &mut self,
        controller: &mut XhciController,
        device: &mut UsbDevice,
        answer: &Answer,
        plan: &mut Plan,
    ) -> (r: Result<bool, XhciError>)
        requires
            old(controller).wf(),
            old(self).wf(),
            old(device).wf(),
        ensures
            final(controller).wf(),
            final(device).wf(),
            r is Ok ==> final(self).wf(),
            ({
                let step = configure_step(
                    *old(controller),
                    *old(device),
                    old(self)@,
                    *answer,
                    old(plan)@,
                );
                &&& *final(controller) == step.state
                &&& final(plan)@ == step.deeds
                &&& final(device).device == old(device).device
                &&& match step.result {
                    Ok((next, done)) => {
                        &&& r == Ok::<_, XhciError>(done is Some)
                        &&& final(self)@ == next
                        &&& final(device).endpoints@ == (match done {
                            Some(entries) => old(device).endpoints@ + entries,
                            None => old(device).endpoints@,
                        })
                    },
                    Err(e) => r == Err::<bool, _>(e) && final(device).endpoints@ == old(
                        device,
                    ).endpoints@,
                }
            }),
    {
        match self.stage {
            ConfigureStage::Wait => {
                let mut wait = self.wait;
                match wait.resume(controller, answer, plan)? {
                    None => {
                        self.wait = wait;
                        Ok(false)
                    },
                    Some(_) => {
                        self.attach(device);
                        Ok(true)
                    },
                }
            },
            ConfigureStage::Ring => match answer {
                Answer::Failed(error) => Err(*error),
                Answer::Memory { device: address, .. } => {
                    self.add(*address, plan)?;
                    Ok(false)
                },
                _ => Err(XhciError::InvalidRegister),
            },
            ConfigureStage::Input => match answer {
                Answer::Failed(error) => Err(*error),
                Answer::Memory { device: address, .. } => {
                    let slot: u8 = device.device.handle.slot_id;
                    self.describe(controller, device, *address, plan)?;
                    let trb = encode_config_ep(*address, slot, 0);
                    let place: u64 = controller.command(trb, plan)?;
                    self.wait = EventWait::begin(place, Awaited::Command { slot }, plan);
                    self.stage = ConfigureStage::Wait;
                    Ok(false)
                },
                _ => Err(XhciError::InvalidRegister),
            },
        }
    }

    /// Gives the device its endpoints.
    fn attach(&self, device: &mut UsbDevice)
        requires
            self.wf(),
            old(device).wf(),
        ensures
            final(device).wf(),
            final(device).device == old(device).device,
            final(device).endpoints@ == old(device).endpoints@ + entries_of(self.staged@),
    {
        let ghost before = device.endpoints@;
        let mut i: usize = 0;
        while i < self.staged.len()
            invariant
                i <= self.staged@.len(),
                self.wf(),
                device.wf(),
                device.device == old(device).device,
                before == old(device).endpoints@,
                device.endpoints@ == before + entries_of(self.staged@).take(i as int),
            decreases self.staged@.len() - i,
        {
            let staged: Staged = self.staged[i];
            device.endpoints.push(
                EndpointEntry { dci: staged.dci, dir_in: staged.dir_in, ring: staged.ring },
            );
            assert(entries_of(self.staged@).take(i + 1) =~= entries_of(self.staged@).take(
                i as int,
            ).push(entries_of(self.staged@)[i as int]));
            assert(device.endpoints@ =~= before + entries_of(self.staged@).take(i + 1));
            i = i + 1;
        }
        assert(entries_of(self.staged@).take(i as int) =~= entries_of(self.staged@));
    }
}

impl XhciController {
    /// Begins to set up endpoints of a device.
    pub fn configure_endpoints(&self, configs: &[EndpointConfig], plan: &mut Plan) -> (r: Result<
        Configuring,
        XhciError,
    >)
        ensures
            r matches Ok(s) ==> s.wf(),
            ({
                let step = configure_start(
                    configs@,
                    new_wait(0, Awaited::Command { slot: 0 }),
                    old(plan)@,
                );
                &&& final(plan)@ == step.deeds
                &&& match step.result {
                    Ok(next) => r is Ok && r->Ok_0@ == next,
                    Err(e) => r is Err && r->Err_0 == e,
                }
            }),
    {
        if configs.len() == 0 {
            return Err(XhciError::TransferFailed(0));
        }
        let mut copies: Vec<EndpointConfig> = Vec::new();
        let mut i: usize = 0;
        while i < configs.len()
            invariant
                i <= configs@.len(),
                copies@ == configs@.take(i as int),
            decreases configs@.len() - i,
        {
            copies.push(configs[i]);
            assert(configs@.take(i + 1) =~= configs@.take(i as int).push(configs@[i as int]));
            i = i + 1;
        }
        assert(configs@.take(i as int) =~= configs@);
        let wait = EventWait {
            pointer: 0,
            awaited: Awaited::Command { slot: 0 },
            deadline: 0,
            drained: 0,
            stage: WaitStage::Deadline,
        };
        let mut configuring = Configuring {
            configs: copies,
            staged: Vec::new(),
            wait,
            stage: ConfigureStage::Ring,
        };
        assert(configuring.staged@ =~= seq![]);
        configuring.next_endpoint(plan)?;
        Ok(configuring)
    }
}

/// Endpoints that are set up together have different contexts, none of them that of the slot or
/// of the control endpoint.
pub proof fn law_endpoints_do_not_collide(staged: Seq<Staged>, config: EndpointConfig)
    requires
        !refused(staged, config),
    ensures
        2 <= index_of(config) < 32,
        forall|i: int| 0 <= i < staged.len() ==> (#[trigger] staged[i]).dci != index_of(config),
{
}

} // verus!
