//! Waiting for the event that ends a command or a transfer.
use vstd::prelude::*;

use crate::clock::{ahead, deadline_after};
use crate::xhci::{
    command_event, completion, completion_to_error, decode_cmd_complete, decode_transfer_event,
    transfer_event, trb_type_of, type_of, XhciError, RING_TRBS, TRB_BYTES, TYPE_COMMAND_EVENT,
    TYPE_PORT_EVENT, TYPE_TRANSFER_EVENT,
};
use crate::xhci::controller::{
    advance_step, is_new, load_entry, plan_load, run, Run, XhciController,
};
use crate::xhci::plan::{decided, Action, Answer, Deed, Plan};

verus! {

/// The seconds that a command or a transfer has.
pub const WAIT_SECONDS: u64 = 5;

/// What is waited for. A command without a slot is given one: any slot will do.
#[derive(Clone, Copy, Debug, PartialEq, Eq, Structural)]
pub enum Awaited {
    Command { slot: u8 },
    Transfer { slot: u8, endpoint: u8 },
}

#[derive(Clone, Copy, Debug, PartialEq, Eq, Structural)]
pub enum WaitStage {
    /// The time is asked for, to set the deadline.
    Deadline,
    /// The next entry of the event ring is read.
    Look,
    /// An event for someone else was taken, and the time is asked for.
    Drained,
    /// There was no event, or as many as the ring holds, and the time is asked for.
    Empty,
}

/// A wait for the end of the entry at an address.
#[derive(Clone, Copy, Debug, PartialEq, Eq, Structural)]
pub struct EventWait {
    pub pointer: u64,
    pub awaited: Awaited,
    pub deadline: u64,
    pub drained: usize,
    pub stage: WaitStage,
}

/// What an event means for a wait: nothing, or its end. The end gives the slot.
pub open spec fn verdict(pointer: u64, awaited: Awaited, trb: Seq<u8>) -> Option<
    Result<u8, XhciError>,
> {
    let t = type_of(trb);
    if t != TYPE_TRANSFER_EVENT && t != TYPE_COMMAND_EVENT && t != TYPE_PORT_EVENT {
        Some(Err(XhciError::UnsupportedEvent))
    } else {
        match awaited {
            Awaited::Command { slot } => {
                let event = command_event(trb);
                if t != TYPE_COMMAND_EVENT || event.pointer != pointer {
                    None
                } else if slot != 0 && event.slot != slot {
                    Some(Err(XhciError::InvalidSlot))
                } else {
                    Some(ended(event.code, event.slot))
                }
            },
            Awaited::Transfer { slot, endpoint } => {
                let event = transfer_event(trb);
                if t != TYPE_TRANSFER_EVENT || event.pointer != pointer {
                    None
                } else if event.slot != slot || event.endpoint != endpoint {
                    Some(Err(XhciError::InvalidSlot))
                } else {
                    Some(ended(event.code, event.slot))
                }
            },
        }
    }
}

/// The end that a completion code reports for a slot.
pub open spec fn ended(code: u8, slot: u8) -> Result<u8, XhciError> {
    match completion(code) {
        Ok(_) => Ok(slot),
        Err(e) => Err(e),
    }
}

/// The next state of a wait, or the slot when it is over.
pub type Waited = (EventWait, Option<u8>);

/// Looks at the next entry of the event ring.
pub open spec fn look(c: XhciController, w: EventWait, deeds: Seq<Deed>) -> Run<
    XhciController,
    Waited,
> {
    run(c, plan_load(deeds, c.evt_phys + c.evt_dequeue * TRB_BYTES)).and_then(
        |u: (), c: XhciController, deeds: Seq<Deed>|
            run(c, decided(deeds, Ok((EventWait { stage: WaitStage::Look, ..w }, None)))),
    )
}

/// Asks for the time.
pub open spec fn ask_time(
    c: XhciController,
    w: EventWait,
    stage: WaitStage,
    deeds: Seq<Deed>,
) -> Run<
    XhciController,
    Waited,
> {
    run(c, decided(deeds.push(Deed::Time), Ok((EventWait { stage, ..w }, None))))
}

/// Takes an event, whatever it means.
pub open spec fn take_event(c: XhciController, w: EventWait, trb: Seq<u8>, deeds: Seq<Deed>) -> Run<
    XhciController,
    Waited,
> {
    advance_step(c, deeds).and_then(
        |u: (), c: XhciController, deeds: Seq<Deed>|
            match verdict(w.pointer, w.awaited, trb) {
                Some(Ok(slot)) => run(c, decided(deeds, Ok((w, Some(slot))))),
                Some(Err(e)) => run(c, decided(deeds, Err(e))),
                None => ask_time(c, w, WaitStage::Drained, deeds),
            },
    )
}

/// Goes on with an answer.
#[verifier::opaque]
pub open spec fn wait_step(
    c: XhciController,
    w: EventWait,
    answer: Answer,
    deeds: Seq<Deed>,
) -> Run<
    XhciController,
    Waited,
> {
    match answer {
        Answer::Failed(e) => run(c, decided(deeds, Err(e))),
        Answer::Ticks(ticks) => match w.stage {
            WaitStage::Deadline => look(
                c,
                EventWait {
                    deadline: ahead(ticks, WAIT_SECONDS, c.ticks_per_second),
                    drained: 0,
                    ..w
                },
                deeds,
            ),
            WaitStage::Look => run(c, decided(deeds, Err(XhciError::InvalidRegister))),
            _ => if ticks >= w.deadline {
                run(c, decided(deeds, Err(XhciError::Timeout)))
            } else if w.stage is Empty {
                look(c, EventWait { drained: 0, ..w }, deeds)
            } else if w.drained + 1 < RING_TRBS {
                look(c, EventWait { drained: (w.drained + 1) as usize, ..w }, deeds)
            } else {
                ask_time(c, w, WaitStage::Empty, deeds)
            },
        },
        Answer::Entry(trb) => if w.stage is Look {
            if is_new(trb@, c.evt_cycle) {
                take_event(c, w, trb@, deeds)
            } else {
                ask_time(c, w, WaitStage::Empty, deeds)
            }
        } else {
            run(c, decided(deeds, Err(XhciError::InvalidRegister)))
        },
        _ => run(c, decided(deeds, Err(XhciError::InvalidRegister))),
    }
}

/// A wait that has just begun.
pub open spec fn new_wait(pointer: u64, awaited: Awaited) -> EventWait {
    EventWait { pointer, awaited, deadline: 0, drained: 0, stage: WaitStage::Deadline }
}

impl EventWait {
    /// Begins to wait for the end of the entry at an address.
    pub fn begin(pointer: u64, awaited: Awaited, plan: &mut Plan) -> (wait: EventWait)
        ensures
            wait == new_wait(pointer, awaited),
            final(plan)@ == old(plan)@.push(Deed::Time),
    {
        plan.push(Action::Time);
        EventWait { pointer, awaited, deadline: 0, drained: 0, stage: WaitStage::Deadline }
    }

    fn look(&mut self, controller: &XhciController, plan: &mut Plan) -> (r: Result<
        Option<u8>,
        XhciError,
    >)
        requires
            controller.wf(),
        ensures
            ({
                let step = look(*controller, *old(self), old(plan)@);
                &&& final(plan)@ == step.deeds
                &&& match step.result {
                    Ok((next, done)) => r == Ok::<_, XhciError>(done) && *final(self) == next,
                    Err(e) => r == Err::<Option<u8>, _>(e),
                }
            }),
    {
        load_entry(plan, controller.evt_phys, controller.evt_dequeue)?;
        self.stage = WaitStage::Look;
        Ok(None)
    }

    /// Goes on with an answer. Gives the slot when the entry has ended well.
    pub fn resume(
        &mut self,
        controller: &mut XhciController,
        answer: &Answer,
        plan: &mut Plan,
    ) -> (r:
        Result<Option<u8>, XhciError>)
        requires
            old(controller).wf(),
        ensures
            final(controller).wf(),
            ({
                let step = wait_step(*old(controller), *old(self), *answer, old(plan)@);
                &&& *final(controller) == step.state
                &&& final(plan)@ == step.deeds
                &&& match step.result {
                    Ok((next, done)) => r == Ok::<_, XhciError>(done) && *final(self) == next,
                    Err(e) => r == Err::<Option<u8>, _>(e),
                }
            }),
    {
        reveal(wait_step);
        match answer {
            Answer::Failed(error) => Err(*error),
            Answer::Ticks(ticks) => match self.stage {
                WaitStage::Deadline => {
                    self.deadline = deadline_after(
                        *ticks,
                        WAIT_SECONDS,
                        controller.ticks_per_second,
                    );
                    self.drained = 0;
                    self.look(controller, plan)
                },
                WaitStage::Look => Err(XhciError::InvalidRegister),
                WaitStage::Empty => {
                    if *ticks >= self.deadline {
                        return Err(XhciError::Timeout);
                    }
                    self.drained = 0;
                    self.look(controller, plan)
                },
                WaitStage::Drained => {
                    if *ticks >= self.deadline {
                        return Err(XhciError::Timeout);
                    }
                    if self.drained < RING_TRBS - 1 {
                        self.drained = self.drained + 1;
                        return self.look(controller, plan);
                    }
                    plan.push(Action::Time);
                    self.stage = WaitStage::Empty;
                    Ok(None)
                },
            },
            Answer::Entry(trb) => match self.stage {
                WaitStage::Look => {
                    if (trb[12] % 2 == 1) != controller.evt_cycle {
                        plan.push(Action::Time);
                        self.stage = WaitStage::Empty;
                        return Ok(None);
                    }
                    controller.advance_event(plan)?;
                    match judge(self.pointer, self.awaited, trb) {
                        Some(Ok(slot)) => Ok(Some(slot)),
                        Some(Err(error)) => Err(error),
                        None => {
                            plan.push(Action::Time);
                            self.stage = WaitStage::Drained;
                            Ok(None)
                        },
                    }
                },
                _ => Err(XhciError::InvalidRegister),
            },
            _ => Err(XhciError::InvalidRegister),
        }
    }
}

/// What an event means for a wait.
fn judge(pointer: u64, awaited: Awaited, trb: &[u8; 16]) -> (r: Option<Result<u8, XhciError>>)
    ensures
        r == verdict(pointer, awaited, trb@),
{
    let trb_type: u32 = match trb_type_of(trb) {
        Ok(trb_type) => trb_type,
        Err(error) => return Some(Err(error)),
    };
    if trb_type != TYPE_TRANSFER_EVENT && trb_type != TYPE_COMMAND_EVENT && trb_type
        != TYPE_PORT_EVENT {
        return Some(Err(XhciError::UnsupportedEvent));
    }
    match awaited {
        Awaited::Command { slot } => {
            if trb_type != TYPE_COMMAND_EVENT {
                return None;
            }
            let event = match decode_cmd_complete(trb) {
                Ok(event) => event,
                Err(error) => return Some(Err(error)),
            };
            if event.pointer != pointer {
                return None;
            }
            if slot != 0 && event.slot != slot {
                return Some(Err(XhciError::InvalidSlot));
            }
            match completion_to_error(event.code) {
                Ok(()) => Some(Ok(event.slot)),
                Err(error) => Some(Err(error)),
            }
        },
        Awaited::Transfer { slot, endpoint } => {
            if trb_type != TYPE_TRANSFER_EVENT {
                return None;
            }
            let event = match decode_transfer_event(trb) {
                Ok(event) => event,
                Err(error) => return Some(Err(error)),
            };
            if event.pointer != pointer {
                return None;
            }
            if event.slot != slot || event.endpoint != endpoint {
                return Some(Err(XhciError::InvalidSlot));
            }
            match completion_to_error(event.code) {
                Ok(()) => Some(Ok(event.slot)),
                Err(error) => Some(Err(error)),
            }
        },
    }
}

/// A wait ends well only with the event for its own entry, and for its own slot and endpoint, and
/// only if that event reports success.
pub proof fn law_a_wait_ends_with_its_own_event(
    c: XhciController,
    w: EventWait,
    answer: Answer,
    deeds: Seq<Deed>,
)
    ensures
        wait_step(c, w, answer, deeds).result matches Ok((_, Some(slot))) ==> {
            &&& answer is Entry
            &&& is_new(answer->Entry_0@, c.evt_cycle)
            &&& match w.awaited {
                Awaited::Command { slot: asked } => {
                    let event = command_event(answer->Entry_0@);
                    event.pointer == w.pointer && event.code == 1 && event.slot == slot && (asked
                        == 0 || asked == slot)
                },
                Awaited::Transfer { slot: asked, endpoint } => {
                    let event = transfer_event(answer->Entry_0@);
                    event.pointer == w.pointer && event.code == 1 && event.slot == slot && asked
                        == slot && event.endpoint == endpoint
                },
            }
        },
{
    reveal(wait_step);
}

/// An endpoint that stalls is reported as such, and the event is taken off the ring.
pub proof fn law_a_stall_is_reported(
    c: XhciController,
    w: EventWait,
    trb: [u8; 16],
    slot: u8,
    endpoint: u8,
    deeds: Seq<Deed>,
)
    requires
        w.awaited == (Awaited::Transfer { slot, endpoint }),
        w.stage is Look,
        is_new(trb@, c.evt_cycle),
        type_of(trb@) == TYPE_TRANSFER_EVENT,
        transfer_event(trb@).pointer == w.pointer,
        transfer_event(trb@).slot == slot,
        transfer_event(trb@).endpoint == endpoint,
        transfer_event(trb@).code == 6,
        advance_step(c, deeds).result is Ok,
    ensures
        wait_step(c, w, Answer::Entry(trb), deeds).result == Err::<Waited, _>(XhciError::Stalled),
        wait_step(c, w, Answer::Entry(trb), deeds).state == advance_step(c, deeds).state,
{
    reveal(wait_step);
}

/// A wait gives up at its deadline, unless the event is there when it looks.
pub proof fn law_a_wait_gives_up_at_its_deadline(
    c: XhciController,
    w: EventWait,
    ticks: u64,
    deeds: Seq<Deed>,
)
    requires
        w.stage is Drained || w.stage is Empty,
        ticks >= w.deadline,
    ensures
        wait_step(c, w, Answer::Ticks(ticks), deeds).result == Err::<Waited, _>(XhciError::Timeout),
{
    reveal(wait_step);
}

} // verus!
