//! What the controller sees of transfers and endpoints: the bytes that are put into memory.
use vstd::prelude::*;

use crate::bytes::{to_le32, to_le64};
use crate::xhci::{control_word, trb_of, BulkData, EndpointConfig, FLAG_IOC, TYPE_NORMAL};
use crate::xhci::address::{endpoint_word, plan_endpoint, slot_word, EndpointContext};
use crate::xhci::configure::{
    add_flags, configure_entry, configure_start, configure_step, context_of, describe, index_of,
    last_context, plan_contexts, ConfiguringView, Staged,
};
use crate::xhci::controller::{command_step, marked_entry, XhciController};
use crate::xhci::plan::{plan_store, Answer, Deed};
use crate::xhci::transfer::{
    bulk_stage, endpoint_at, normal_step, push_step, DataStage, EndpointEntry, TransferRing,
    UsbDevice,
};
use crate::xhci::wait::{Awaited, EventWait};

verus! {

/// The number in four bytes, least significant first.
pub open spec fn word(bytes: Seq<u8>, at: int) -> int {
    bytes[at] + 0x100 * bytes[at + 1] + 0x1_0000 * bytes[at + 2] + 0x100_0000 * bytes[at + 3]
}

/// The number in eight bytes, least significant first.
pub open spec fn long_word(bytes: Seq<u8>, at: int) -> int {
    word(bytes, at) + 0x1_0000_0000 * word(bytes, at + 4)
}

pub(crate) proof fn lemma_word(v: u32)
    ensures
        to_le32(v).len() == 4,
        word(to_le32(v), 0) == v,
{
    let a = v / 256;
    let b = a / 256;
    assert(b == v / 65536);
    assert(b / 256 == v / 16777216);
}

pub(crate) proof fn lemma_long_word(v: u64)
    ensures
        to_le64(v).len() == 8,
        long_word(to_le64(v), 0) == v,
{
    let low = (v % 4294967296) as u32;
    let high = (v / 4294967296) as u32;
    lemma_word(low);
    lemma_word(high);
    let bytes = to_le64(v);
    assert forall|i: int| 0 <= i < 4 implies bytes[i] == to_le32(low)[i] && bytes[i + 4] == to_le32(
        high,
    )[i] by {}
}

/// A request on a ring: sixteen bytes with an address or eight bytes of their own, a third word, and
/// a fourth that holds the kind in bits 10 to 15, flags, and in its lowest bit the mark of new
/// requests.
#[verifier::opaque]
pub open spec fn is_request(
    bytes: Seq<u8>,
    first: int,
    third: int,
    kind: int,
    flags: int,
    mark: bool,
) -> bool {
    &&& bytes.len() == 16
    &&& long_word(bytes, 0) == first
    &&& word(bytes, 8) == third
    &&& word(bytes, 12) == kind * 1024 + flags + if mark {
        1int
    } else {
        0
    }
}

/// Where a request is put on a ring: behind the last, or where the ring starts over.
pub open spec fn next_place(ring: TransferRing) -> int {
    if ring.enqueue < 63 {
        ring.phys + 16 * ring.enqueue
    } else {
        ring.phys as int
    }
}

/// The mark of the next request: that of the ring, or the other where it starts over.
pub open spec fn next_mark(ring: TransferRing) -> bool {
    if ring.enqueue < 63 {
        ring.cycle
    } else {
        !ring.cycle
    }
}

/// Some bytes are stored at an address by the action with a number, and a fence follows.
pub open spec fn stores(deeds: Seq<Deed>, at: int, address: int, bytes: Seq<u8>) -> bool {
    &&& 0 <= at && at + 1 < deeds.len()
    &&& deeds[at] == Deed::Store { address: address as u64, bytes }
    &&& deeds[at + 1] is Fence
}

/// A request that is put on a ring is stored at the next place, with its mark. The ring then goes
/// on behind it. What was planned before stays.
pub(crate) proof fn lemma_pushed(ring: TransferRing, deeds: Seq<Deed>, trb: Seq<u8>)
    requires
        ring.wf(),
        trb.len() == 16,
        trb[12] % 2 == 0,
    ensures
        push_step(ring, deeds, trb).result matches Ok(place) ==> {
            let s = push_step(ring, deeds, trb);
            let n = s.deeds.len() as int;
            &&& place == next_place(ring)
            &&& n > deeds.len() + 1
            &&& s.deeds.take(deeds.len() as int) == deeds
            &&& stores(
                s.deeds,
                n - 2,
                place as int,
                trb.update(12, (trb[12] + if next_mark(ring) {
                    1int
                } else {
                    0
                }) as u8),
            )
            &&& s.state.wf()
            &&& s.state.phys == ring.phys
            &&& s.state.cycle == next_mark(ring)
            &&& s.state.enqueue == if ring.enqueue < 63 {
                ring.enqueue + 1
            } else {
                1
            }
        },
{
    let s = push_step(ring, deeds, trb);
    if s.result is Ok {
        assert(s.deeds.take(deeds.len() as int) =~= deeds);
        assert(marked_entry(trb, next_mark(ring)) =~= trb.update(
            12,
            (trb[12] + if next_mark(ring) {
                1int
            } else {
                0
            }) as u8,
        ));
    }
}

pub(crate) proof fn lemma_even(v: u32)
    requires
        v % 2 == 0,
    ensures
        to_le32(v)[0] % 2 == 0,
{
    assert(to_le32(v)[0] == v % 256);
}

pub(crate) proof fn lemma_parts(a: Seq<u8>, b: Seq<u8>, c: Seq<u8>, mark: bool)
    requires
        a.len() == 8,
        b.len() == 4,
        c.len() == 4,
        c[0] % 2 == 0,
    ensures
        ({
            let trb = a + b + c;
            let marked = trb.update(12, (trb[12] + if mark {
                1int
            } else {
                0
            }) as u8);
            &&& trb.len() == 16
            &&& trb[12] % 2 == 0
            &&& marked.len() == 16
            &&& long_word(marked, 0) == long_word(a, 0)
            &&& word(marked, 8) == word(b, 0)
            &&& word(marked, 12) == word(c, 0) + if mark {
                1int
            } else {
                0
            }
        }),
{
}

/// The bytes of a request are the parts that it was made of.
pub(crate) proof fn lemma_request(first: u64, third: u32, fourth: u32, mark: bool)
    requires
        fourth % 2 == 0,
    ensures
        ({
            let trb = to_le64(first) + to_le32(third) + to_le32(fourth);
            let marked = trb.update(12, (trb[12] + if mark {
                1int
            } else {
                0
            }) as u8);
            &&& trb.len() == 16
            &&& trb[12] % 2 == 0
            &&& marked.len() == 16
            &&& long_word(marked, 0) == first
            &&& word(marked, 8) == third
            &&& word(marked, 12) == fourth + if mark {
                1int
            } else {
                0
            }
        }),
{
    lemma_long_word(first);
    lemma_word(third);
    lemma_word(fourth);
    lemma_even(fourth);
    lemma_parts(to_le64(first), to_le32(third), to_le32(fourth), mark);
}

/// A bulk or interrupt transfer that has begun asks for the whole buffer: the request at the place
/// that is waited for holds the address at which the device sees the buffer, its length, the kind 1,
/// and the flag that its end is reported. It is the next on the ring of the endpoint with the index,
/// whose direction is that of the transfer. Then the controller is told, by the register of the slot,
/// which endpoint has something to do.
pub proof fn law_a_transfer_asks_for_the_whole_buffer(
    c: XhciController,
    endpoints: Seq<EndpointEntry>,
    slot: u8,
    deeds: Seq<Deed>,
    dci: u8,
    data: BulkData,
    buffer: Seq<u8>,
)
    requires
        forall|i: int| 0 <= i < endpoints.len() ==> (#[trigger] endpoints[i]).ring.wf(),
        buffer == data.buffer@,
        buffer.len() <= usize::MAX,
        normal_step(c, endpoints, slot, deeds, dci, bulk_stage(data)).result is Ok,
    ensures
        ({
            let s = normal_step(c, endpoints, slot, deeds, dci, bulk_stage(data));
            let wait = s.result->Ok_0;
            let n = s.deeds.len() as int;
            let i = endpoint_at(endpoints, dci, 0)->0;
            &&& 1 <= buffer.len() <= 65535
            &&& endpoint_at(endpoints, dci, 0) is Some
            &&& 0 <= i < endpoints.len()
            &&& endpoints[i].dci == dci
            &&& forall|j: int| 0 <= j < i ==> (#[trigger] endpoints[j]).dci != dci
            &&& endpoints[i].dir_in == (data.direction is In)
            &&& wait.pointer == next_place(endpoints[i].ring)
            &&& wait.awaited == (Awaited::Transfer { slot, endpoint: dci })
            &&& s.deeds.take(deeds.len() as int) == deeds
            &&& exists|bytes: Seq<u8>| #[trigger]
                stores(s.deeds, n - 4, wait.pointer as int, bytes) && is_request(
                    bytes,
                    data.device_address as int,
                    buffer.len() as int,
                    1,
                    0x20,
                    next_mark(endpoints[i].ring),
                )
            &&& s.deeds[n - 2] == Deed::Write {
                offset: (c.db_base + 4 * slot) as u32,
                value: dci as u32,
            }
            &&& s.deeds[n - 1] is Time
            &&& s.state.len() == endpoints.len()
            &&& s.state[i].ring.phys == endpoints[i].ring.phys
            &&& s.state[i].dci == dci && s.state[i].dir_in == endpoints[i].dir_in
            &&& forall|j: int|
                0 <= j < endpoints.len() && j != i ==> #[trigger] s.state[j] == endpoints[j]
        }),
{
    let stage = bulk_stage(data);
    let s = normal_step(c, endpoints, slot, deeds, dci, stage);
    let n = s.deeds.len() as int;
    lemma_endpoint_at(endpoints, dci, 0);
    let i = endpoint_at(endpoints, dci, 0)->0;
    lemma_normal(c, endpoints, slot, deeds, dci, stage);
    let ring = endpoints[i].ring;
    let trb = normal_request(stage);
    lemma_normal_request(stage, next_mark(ring));
    lemma_pushed(ring, deeds, trb);
    let pushed = push_step(ring, deeds, trb);
    let bytes = trb.update(12, (trb[12] + if next_mark(ring) {
        1int
    } else {
        0
    }) as u8);
    assert(s.deeds.take(deeds.len() as int) =~= pushed.deeds.take(deeds.len() as int));
    assert(stores(s.deeds, n - 4, s.result->Ok_0.pointer as int, bytes));
}

/// The request for a buffer.
spec fn normal_request(data: DataStage) -> Seq<u8> {
    trb_of(data.phys, (data.len % 0x2_0000) as u32, control_word(TYPE_NORMAL, 0, FLAG_IOC as int))
}

proof fn lemma_normal_request(data: DataStage, mark: bool)
    requires
        data.len <= 65535,
    ensures
        ({
            let trb = normal_request(data);
            &&& trb.len() == 16
            &&& trb[12] % 2 == 0
            &&& is_request(
                trb.update(12, (trb[12] + if mark {
                    1int
                } else {
                    0
                }) as u8),
                data.phys as int,
                data.len as int,
                1,
                0x20,
                mark,
            )
        }),
{
    reveal(is_request);
    let fourth = control_word(TYPE_NORMAL, 0, FLAG_IOC as int);
    assert(fourth == 1056);
    lemma_request(data.phys, (data.len % 0x2_0000) as u32, fourth, mark);
}

/// A transfer is one request, a word to the controller, and the time.
proof fn lemma_normal(
    c: XhciController,
    endpoints: Seq<EndpointEntry>,
    slot: u8,
    deeds: Seq<Deed>,
    dci: u8,
    data: DataStage,
)
    requires
        normal_step(c, endpoints, slot, deeds, dci, data).result is Ok,
    ensures
        ({
            let s = normal_step(c, endpoints, slot, deeds, dci, data);
            let i = endpoint_at(endpoints, dci, 0)->0;
            let pushed = push_step(endpoints[i].ring, deeds, normal_request(data));
            &&& 1 <= data.len <= 65535
            &&& endpoint_at(endpoints, dci, 0) is Some
            &&& endpoints[i].dir_in == data.dir_in
            &&& pushed.result is Ok
            &&& s.result->Ok_0.pointer == pushed.result->Ok_0
            &&& s.result->Ok_0.awaited == (Awaited::Transfer { slot, endpoint: dci })
            &&& s.deeds == pushed.deeds.push(
                Deed::Write { offset: (c.db_base + 4 * slot) as u32, value: dci as u32 },
            ).push(Deed::Time)
            &&& s.state == endpoints.update(
                i,
                EndpointEntry { ring: pushed.state, ..endpoints[i] },
            )
        }),
{
}

proof fn lemma_endpoint_at(endpoints: Seq<EndpointEntry>, dci: u8, from: int)
    requires
        0 <= from <= endpoints.len(),
    ensures
        match endpoint_at(endpoints, dci, from) {
            Some(i) => from <= i < endpoints.len() && endpoints[i].dci == dci && forall|j: int|
                from <= j < i ==> (#[trigger] endpoints[j]).dci != dci,
            None => forall|j: int|
                from <= j < endpoints.len() ==> (#[trigger] endpoints[j]).dci != dci,
        },
    decreases endpoints.len() - from,
{
    if from < endpoints.len() && endpoints[from].dci != dci {
        lemma_endpoint_at(endpoints, dci, from + 1);
    }
}

/// What is being set up is what was asked for: for each endpoint the index is twice its number, and
/// one more if it sends to the host, which the highest bit of its address says; its type is that of
/// its transfers, and four more if it sends to the host. No index is there twice, and rings are
/// aligned.
pub open spec fn set_up(s: ConfiguringView) -> bool {
    &&& s.staged.len() <= s.configs.len()
    &&& s.stage is Input || s.stage is Wait ==> s.staged.len() == s.configs.len()
    &&& forall|i: int|
        0 <= i < s.staged.len() ==> is_set_up(#[trigger] s.staged[i], s.configs[i])
    &&& forall|i: int, j: int|
        0 <= i < j < s.staged.len() ==> (#[trigger] s.staged[i]).dci != (
        #[trigger] s.staged[j]).dci
}

/// An endpoint is set up as it was asked for.
pub open spec fn is_set_up(e: Staged, config: EndpointConfig) -> bool {
    let inward: int = if config.address >= 128 {
        1
    } else {
        0
    };
    &&& e.config == config
    &&& config.transfer_type == 2 || config.transfer_type == 3
    &&& config.max_packet_size > 0
    &&& 1 <= config.address % 16
    &&& e.dci == 2 * (config.address % 16) + inward
    &&& e.dir_in == (config.address >= 128)
    &&& e.ep_type == config.transfer_type + 4 * inward
    &&& e.ring.phys % 64 == 0
    &&& e.ring.enqueue == 0
    &&& e.ring.cycle
}

/// Setting up endpoints begins with none of them, and asks for the memory of the first ring.
pub proof fn law_setting_up_begins(configs: Seq<EndpointConfig>, wait: EventWait, deeds: Seq<Deed>)
    ensures
        configure_start(configs, wait, deeds).result matches Ok(s) ==> {
            &&& s.configs == configs
            &&& s.staged.len() == 0
            &&& s.stage is Ring
            &&& configs.len() > 0
            &&& set_up(s)
            &&& configure_start(configs, wait, deeds).deeds == deeds.push(
                Deed::Allocate { size: 1024, align: 64 },
            )
        },
{
}

/// Each step keeps to what was asked for.
pub proof fn law_endpoints_are_set_up_as_asked(
    c: XhciController,
    device: UsbDevice,
    s: ConfiguringView,
    answer: Answer,
    deeds: Seq<Deed>,
)
    requires
        set_up(s),
        s.stage is Ring ==> s.staged.len() < s.configs.len() && !crate::xhci::configure::refused(
            s.staged,
            s.configs[s.staged.len() as int],
        ),
    ensures
        configure_step(c, device, s, answer, deeds).result matches Ok((t, done)) ==> {
            &&& set_up(t)
            &&& t.configs == s.configs
            &&& t.stage is Ring ==> t.staged.len() < t.configs.len()
                && !crate::xhci::configure::refused(t.staged, t.configs[t.staged.len() as int])
            &&& s.stage is Ring ==> (answer matches Answer::Memory { device: place, .. }
                && t.staged.len() == s.staged.len() + 1 && t.staged.last().ring.phys == place)
            &&& done matches Some(entries) ==> {
                &&& s.stage is Wait
                &&& entries.len() == s.configs.len()
                &&& forall|i: int|
                    0 <= i < entries.len() ==> {
                        &&& (#[trigger] entries[i]).dci == s.staged[i].dci
                        &&& entries[i].dir_in == (s.configs[i].address >= 128)
                        &&& entries[i].ring == s.staged[i].ring
                    }
            }
        },
{
    if let Ok((t, done)) = configure_step(c, device, s, answer, deeds).result {
        if s.stage is Ring {
            let e = t.staged.last();
            assert(t.staged.drop_last() =~= s.staged);
            assert forall|i: int| 0 <= i < t.staged.len() implies is_set_up(
                #[trigger] t.staged[i],
                t.configs[i],
            ) by {
                if i < s.staged.len() {
                    assert(t.staged[i] == s.staged[i]);
                }
            }
            assert forall|i: int, j: int| 0 <= i < j < t.staged.len() implies (
            #[trigger] t.staged[i]).dci != (#[trigger] t.staged[j]).dci by {
                assert(t.staged[i] == s.staged[i]);
                if j < s.staged.len() {
                    assert(t.staged[j] == s.staged[j]);
                } else {
                    assert(e.dci == index_of(s.configs[s.staged.len() as int]));
                }
            }
        }
    }
}

/// The context of an endpoint is stored by the actions from a number on: its interval in the upper
/// half of the first word; in the second its packet size, its burst, its type and three tries; then
/// the start of its ring with the mark of new requests; and in the last the packet size, and again
/// as the average, but at most 1024.
pub open spec fn context_stored(deeds: Seq<Deed>, k: int, place: int, e: Staged) -> bool {
    let config = e.config;
    let size = config.max_packet_size;
    let inward: int = if config.address >= 128 {
        1
    } else {
        0
    };
    &&& 0 <= k && k + 3 < deeds.len()
    &&& holds_word(deeds[k], place, config.interval * 0x1_0000)
    &&& holds_word(
        deeds[k + 1],
        place + 4,
        size * 0x1_0000 + config.max_burst * 0x100 + (config.transfer_type + 4 * inward) * 8 + 6,
    )
    &&& holds_long_word(deeds[k + 2], place + 8, e.ring.phys + 1)
    &&& holds_word(
        deeds[k + 3],
        place + 16,
        size * 0x1_0000 + if size < 1024 {
            size
        } else {
            1024
        },
    )
}

/// An action stores a number of four bytes.
#[verifier::opaque]
pub open spec fn holds_word(deed: Deed, address: int, value: int) -> bool {
    deed matches Deed::Store { address: a, bytes } && a == address && bytes.len() == 4 && word(
        bytes,
        0,
    ) == value
}

/// An action stores a number of eight bytes.
#[verifier::opaque]
pub open spec fn holds_long_word(deed: Deed, address: int, value: int) -> bool {
    deed matches Deed::Store { address: a, bytes } && a == address && bytes.len() == 8
        && long_word(bytes, 0) == value
}

/// Stores something at an address; the rest follows.
pub(crate) proof fn lemma_planned(deeds: Seq<Deed>, address: int, bytes: Seq<u8>)
    ensures
        plan_store(deeds, address, bytes).result is Ok ==> {
            &&& 0 <= address <= u64::MAX
            &&& plan_store(deeds, address, bytes).deeds == deeds.push(
                Deed::Store { address: address as u64, bytes },
            )
        },
{
}

/// The values of a context's words.
spec fn valued(e: Staged, first: u32, second: u32, third: u64, fourth: u32) -> bool {
    let config = e.config;
    let size = config.max_packet_size;
    let inward: int = if config.address >= 128 {
        1
    } else {
        0
    };
    &&& first == config.interval * 0x1_0000
    &&& second == size * 0x1_0000 + config.max_burst * 0x100 + (config.transfer_type + 4 * inward)
        * 8 + 6
    &&& third == e.ring.phys + 1
    &&& fourth == size * 0x1_0000 + if size < 1024 {
        size
    } else {
        1024
    }
}

pub(crate) proof fn lemma_dequeue(phys: u64)
    requires
        phys % 64 == 0,
    ensures
        ({
            let dequeue = (phys - phys % 2 + 1) as u64;
            dequeue == phys + 1 && dequeue - dequeue % 16 + dequeue % 2 == phys + 1
        }),
{
    assert(phys % 2 == 0 && (phys + 1) % 16 == 1 && (phys + 1) % 2 == 1) by (nonlinear_arith)
        requires
            phys % 64 == 0,
    ;
}

#[verifier::rlimit(40)]
proof fn lemma_valued(e: Staged)
    requires
        is_set_up(e, e.config),
    ensures
        ({
            let context = context_of(e);
            valued(
                e,
                (context.interval * 0x1_0000) as u32,
                endpoint_word(context),
                (context.dequeue - context.dequeue % 16 + context.dequeue % 2) as u64,
                (context.payload * 0x1_0000 + context.average) as u32,
            )
        }),
{
    lemma_dequeue(e.ring.phys);
}

proof fn lemma_context_bytes(
    deeds: Seq<Deed>,
    place: int,
    e: Staged,
    b0: Seq<u8>,
    b1: Seq<u8>,
    b2: Seq<u8>,
    b3: Seq<u8>,
    first: u32,
    second: u32,
    third: u64,
    fourth: u32,
)
    requires
        valued(e, first, second, third, fourth),
        0 <= place,
        place + 16 <= u64::MAX,
        holds_word(Deed::Store { address: place as u64, bytes: b0 }, place, first as int),
        holds_word(
            Deed::Store { address: (place + 4) as u64, bytes: b1 },
            place + 4,
            second as int,
        ),
        holds_long_word(
            Deed::Store { address: (place + 8) as u64, bytes: b2 },
            place + 8,
            third as int,
        ),
        holds_word(
            Deed::Store { address: (place + 16) as u64, bytes: b3 },
            place + 16,
            fourth as int,
        ),
    ensures
        ({
            let after = deeds.push(Deed::Store { address: place as u64, bytes: b0 }).push(
                Deed::Store { address: (place + 4) as u64, bytes: b1 },
            ).push(Deed::Store { address: (place + 8) as u64, bytes: b2 }).push(
                Deed::Store { address: (place + 16) as u64, bytes: b3 },
            );
            &&& after.len() == deeds.len() + 4
            &&& after.take(deeds.len() as int) == deeds
            &&& context_stored(after, deeds.len() as int, place, e)
        }),
{
    let after = deeds.push(Deed::Store { address: place as u64, bytes: b0 }).push(
        Deed::Store { address: (place + 4) as u64, bytes: b1 },
    ).push(Deed::Store { address: (place + 8) as u64, bytes: b2 }).push(
        Deed::Store { address: (place + 16) as u64, bytes: b3 },
    );
    assert(after.take(deeds.len() as int) =~= deeds);
}

pub(crate) proof fn lemma_four_stores(
    deeds: Seq<Deed>,
    input: u64,
    offset: int,
    context: EndpointContext,
)
    requires
        plan_endpoint(deeds, input, offset, context).result is Ok,
    ensures
        ({
            let place = input + offset;
            &&& 0 <= place
            &&& place + 16 <= u64::MAX
            &&& plan_endpoint(deeds, input, offset, context).deeds == deeds.push(
                Deed::Store {
                    address: place as u64,
                    bytes: to_le32((context.interval * 0x1_0000) as u32),
                },
            ).push(
                Deed::Store {
                    address: (place + 4) as u64,
                    bytes: to_le32(endpoint_word(context)),
                },
            ).push(
                Deed::Store {
                    address: (place + 8) as u64,
                    bytes: to_le64(
                        (context.dequeue - context.dequeue % 16 + context.dequeue % 2) as u64,
                    ),
                },
            ).push(
                Deed::Store {
                    address: (place + 16) as u64,
                    bytes: to_le32((context.payload * 0x1_0000 + context.average) as u32),
                },
            )
        }),
{
    reveal(plan_endpoint);
    let place = input + offset;
    let b0 = to_le32((context.interval * 0x1_0000) as u32);
    let b1 = to_le32(endpoint_word(context));
    let b2 = to_le64((context.dequeue - context.dequeue % 16 + context.dequeue % 2) as u64);
    let b3 = to_le32((context.payload * 0x1_0000 + context.average) as u32);
    lemma_planned(deeds, place, b0);
    let d1 = plan_store(deeds, place, b0).deeds;
    lemma_planned(d1, place + 4, b1);
    let d2 = plan_store(d1, place + 4, b1).deeds;
    lemma_planned(d2, place + 8, b2);
    let d3 = plan_store(d2, place + 8, b2).deeds;
    lemma_planned(d3, place + 16, b3);
}

proof fn lemma_context(deeds: Seq<Deed>, input: u64, offset: int, e: Staged)
    requires
        is_set_up(e, e.config),
        plan_endpoint(deeds, input, offset, context_of(e)).result is Ok,
    ensures
        ({
            let after = plan_endpoint(deeds, input, offset, context_of(e)).deeds;
            &&& after.len() == deeds.len() + 4
            &&& after.take(deeds.len() as int) == deeds
            &&& context_stored(after, deeds.len() as int, input + offset, e)
        }),
{
    let context = context_of(e);
    let place = input + offset;
    let first = (context.interval * 0x1_0000) as u32;
    let second = endpoint_word(context);
    let third = (context.dequeue - context.dequeue % 16 + context.dequeue % 2) as u64;
    let fourth = (context.payload * 0x1_0000 + context.average) as u32;
    lemma_four_stores(deeds, input, offset, context);
    lemma_valued(e);
    lemma_holds(place as u64, first);
    lemma_holds((place + 4) as u64, second);
    lemma_holds_long((place + 8) as u64, third);
    lemma_holds((place + 16) as u64, fourth);
    lemma_context_bytes(
        deeds,
        place,
        e,
        to_le32(first),
        to_le32(second),
        to_le64(third),
        to_le32(fourth),
        first,
        second,
        third,
        fourth,
    );
}

pub(crate) proof fn lemma_holds(address: u64, v: u32)
    ensures
        holds_word(Deed::Store { address, bytes: to_le32(v) }, address as int, v as int),
{
    reveal(holds_word);
    lemma_word(v);
}

pub(crate) proof fn lemma_holds_long(address: u64, v: u64)
    ensures
        holds_long_word(Deed::Store { address, bytes: to_le64(v) }, address as int, v as int),
{
    reveal(holds_long_word);
    lemma_long_word(v);
}

/// A command is stored at the next place of the command ring, and the controller is told.
pub(crate) proof fn lemma_command(c: XhciController, deeds: Seq<Deed>, first: u64, kind: u32, slot: u8)
    requires
        c.wf(),
        kind < 64,
    ensures
        ({
            let trb = to_le64(first) + to_le32(0) + to_le32(
                (kind * 1024 + slot * 0x100_0000) as u32,
            );
            let s = command_step(c, deeds, trb);
            s.result matches Ok(place) ==> {
                &&& place == c.cmd_phys + 16 * c.cmd_enqueue
                &&& s.deeds.len() == deeds.len() + 3
                &&& s.deeds.take(deeds.len() as int) == deeds
                &&& exists|bytes: Seq<u8>| #[trigger]
                    stores(s.deeds, deeds.len() as int, place as int, bytes) && is_request(
                        bytes,
                        first as int,
                        0,
                        kind as int,
                        slot * 0x100_0000,
                        c.cmd_cycle,
                    )
                &&& s.deeds[deeds.len() + 2int] == Deed::Write { offset: c.db_base, value: 0 }
            }
        }),
{
    let fourth = (kind * 1024 + slot * 0x100_0000) as u32;
    let trb = to_le64(first) + to_le32(0) + to_le32(fourth);
    let s = command_step(c, deeds, trb);
    reveal(is_request);
    lemma_request(first, 0, fourth, c.cmd_cycle);
    let bytes = trb.update(12, (trb[12] + if c.cmd_cycle {
        1int
    } else {
        0
    }) as u8);
    assert(marked_entry(trb, c.cmd_cycle) =~= bytes);
    if s.result is Ok {
        assert(s.deeds.take(deeds.len() as int) =~= deeds);
        assert(stores(s.deeds, deeds.len() as int, c.cmd_phys + 16 * c.cmd_enqueue, bytes));
    }
}

proof fn lemma_contexts(
    deeds: Seq<Deed>,
    input: u64,
    wide: bool,
    staged: Seq<Staged>,
    from: int,
)
    requires
        0 <= from <= staged.len(),
        forall|i: int| 0 <= i < staged.len() ==> is_set_up(#[trigger] staged[i], staged[i].config),
        plan_contexts(deeds, input, wide, staged, from).result is Ok,
    ensures
        ({
            let after = plan_contexts(deeds, input, wide, staged, from).deeds;
            &&& after.len() == deeds.len() + 4 * (staged.len() - from)
            &&& after.take(deeds.len() as int) == deeds
            &&& forall|i: int|
                from <= i < staged.len() ==> context_stored(
                    after,
                    deeds.len() + 4 * (i - from),
                    input + 32 + (#[trigger] staged[i]).dci * if wide {
                        64int
                    } else {
                        32
                    },
                    staged[i],
                )
        }),
    decreases staged.len() - from,
{
    let after = plan_contexts(deeds, input, wide, staged, from).deeds;
    if from < staged.len() {
        let e = staged[from];
        let stride: int = if wide {
            64
        } else {
            32
        };
        let offset = 32 + e.dci * stride;
        let one = plan_endpoint(
            deeds,
            input,
            crate::xhci::address::input_place(e.dci, wide),
            context_of(e),
        );
        lemma_context(deeds, input, offset, e);
        lemma_contexts(one.deeds, input, wide, staged, from + 1);
        assert(after.take(deeds.len() as int) =~= one.deeds.take(deeds.len() as int)) by {
            assert(after.take(one.deeds.len() as int) == one.deeds);
        }
        assert forall|k: int| 0 <= k < one.deeds.len() implies #[trigger] after[k]
            == one.deeds[k] by {
            assert(after.take(one.deeds.len() as int)[k] == one.deeds[k]);
        }
    } else {
        assert(after.take(deeds.len() as int) =~= deeds);
    }
}

proof fn lemma_flags(staged: Seq<Staged>, b: u32)
    requires
        b < 32,
        forall|i: int| 0 <= i < staged.len() ==> (#[trigger] staged[i]).dci < 32,
    ensures
        (add_flags(staged) >> b) & 1 == 1 <==> b == 0 || exists|i: int|
            0 <= i < staged.len() && (#[trigger] staged[i]).dci == b,
    decreases staged.len(),
{
    if staged.len() == 0 {
        assert((1u32 >> b) & 1 == 1 <==> b == 0) by (bit_vector)
            requires
                b < 32,
        ;
    } else {
        let front = staged.drop_last();
        let last = staged.last().dci as u32;
        let before = add_flags(front);
        assert forall|i: int| 0 <= i < front.len() implies (#[trigger] front[i]).dci < 32 by {
            assert(front[i] == staged[i]);
        }
        lemma_flags(front, b);
        assert(staged[staged.len() - 1].dci < 32);
        assert(((before | (1u32 << last)) >> b) & 1 == 1 <==> (before >> b) & 1 == 1 || b == last)
            by (bit_vector)
            requires
                b < 32,
                last < 32,
        ;
        if exists|i: int| 0 <= i < front.len() && (#[trigger] front[i]).dci == b {
            let i = choose|i: int| 0 <= i < front.len() && (#[trigger] front[i]).dci == b;
            assert(staged[i].dci == b);
        }
        if exists|i: int| 0 <= i < staged.len() && (#[trigger] staged[i]).dci == b {
            let i = choose|i: int| 0 <= i < staged.len() && (#[trigger] staged[i]).dci == b;
            if i < front.len() {
                assert(front[i].dci == b);
            }
        }
    }
}

proof fn lemma_last_context(staged: Seq<Staged>)
    ensures
        forall|i: int|
            0 <= i < staged.len() ==> (#[trigger] staged[i]).dci <= last_context(staged),
        last_context(staged) == 1 || exists|i: int|
            0 <= i < staged.len() && (#[trigger] staged[i]).dci == last_context(staged),
        last_context(staged) >= 1,
    decreases staged.len(),
{
    if staged.len() > 0 {
        let front = staged.drop_last();
        lemma_last_context(front);
        assert forall|i: int| 0 <= i < staged.len() implies (#[trigger] staged[i]).dci
            <= last_context(staged) by {
            if i < front.len() {
                assert(front[i] == staged[i]);
            }
        }
        if last_context(staged) == staged.last().dci {
            assert(staged[staged.len() - 1].dci == last_context(staged));
        } else if last_context(front) != 1 {
            let i = choose|i: int|
                0 <= i < front.len() && (#[trigger] front[i]).dci == last_context(front);
            assert(staged[i].dci == last_context(staged));
        }
    }
}

/// Describing a slot and its endpoints stores six words, and then the contexts.
proof fn lemma_described(
    c: XhciController,
    device: UsbDevice,
    s: ConfiguringView,
    deeds: Seq<Deed>,
    input: u64,
)
    requires
        describe(c, device, s, deeds, input).result is Ok,
    ensures
        ({
            let flags = add_flags(s.staged);
            let slot_word = slot_word(device.device.speed_raw, last_context(s.staged));
            let port_word = (device.device.handle.root_port * 0x1_0000) as u32;
            let d6 = deeds.push(Deed::Store { address: input, bytes: to_le32(0) }).push(
                Deed::Store { address: (input + 4) as u64, bytes: to_le32(flags) },
            ).push(
                Deed::Store { address: (input + 32) as u64, bytes: to_le32(slot_word) },
            ).push(
                Deed::Store { address: (input + 36) as u64, bytes: to_le32(port_word) },
            ).push(Deed::Store { address: (input + 40) as u64, bytes: to_le32(0) }).push(
                Deed::Store { address: (input + 44) as u64, bytes: to_le32(0) },
            );
            &&& input + 44 <= u64::MAX
            &&& describe(c, device, s, deeds, input) == plan_contexts(
                d6,
                input,
                c.caps.context_64,
                s.staged,
                0,
            )
        }),
{
    let flags = to_le32(add_flags(s.staged));
    let slot = to_le32(slot_word(device.device.speed_raw, last_context(s.staged)));
    let port = to_le32((device.device.handle.root_port * 0x1_0000) as u32);
    let none = to_le32(0);
    lemma_planned(deeds, input as int, none);
    let d1 = plan_store(deeds, input as int, none).deeds;
    lemma_planned(d1, input + 4, flags);
    let d2 = plan_store(d1, input + 4, flags).deeds;
    lemma_planned(d2, input + 32, slot);
    let d3 = plan_store(d2, input + 32, slot).deeds;
    lemma_planned(d3, input + 36, port);
    let d4 = plan_store(d3, input + 36, port).deeds;
    lemma_planned(d4, input + 40, none);
    let d5 = plan_store(d4, input + 40, none).deeds;
    lemma_planned(d5, input + 44, none);
}

/// A word has its lowest bit set and those of the indices, and no other.
pub open spec fn names_all(flags: u32, staged: Seq<Staged>) -> bool {
    forall|b: u32|
        b < 32 ==> ((#[trigger] (flags >> b)) & 1 == 1 <==> b == 0 || exists|i: int|
            0 <= i < staged.len() && (#[trigger] staged[i]).dci == b)
}

/// The greatest of the indices.
pub open spec fn is_last(last: u8, staged: Seq<Staged>) -> bool {
    &&& forall|i: int| 0 <= i < staged.len() ==> (#[trigger] staged[i]).dci <= last
    &&& exists|i: int| 0 <= i < staged.len() && (#[trigger] staged[i]).dci == last
}

/// Contexts are stored by the actions from a number on. The second word names those that are new:
/// that of the slot and one for each endpoint. The context of the slot names the last one in use, the
/// speed and the port. The context of an endpoint lies as many strides behind the first as its index
/// says.
#[verifier::opaque]
pub open spec fn described_as_asked(
    deeds: Seq<Deed>,
    k: int,
    input: u64,
    wide: bool,
    speed: u8,
    port: u8,
    staged: Seq<Staged>,
) -> bool {
    &&& 0 <= k && k + 6 + 4 * staged.len() <= deeds.len()
    &&& holds_word(deeds[k], input as int, 0)
    &&& exists|flags: u32| #[trigger]
        names_all(flags, staged) && holds_word(deeds[k + 1], input + 4, flags as int)
    &&& staged.len() > 0 ==> exists|last: u8| #[trigger]
        is_last(last, staged) && holds_word(
            deeds[k + 2],
            input + 32,
            last * 0x800_0000 + speed % 16 * 0x1_0000,
        )
    &&& holds_word(deeds[k + 3], input + 36, port * 0x1_0000)
    &&& holds_word(deeds[k + 4], input + 40, 0)
    &&& holds_word(deeds[k + 5], input + 44, 0)
    &&& forall|i: int|
        0 <= i < staged.len() ==> context_stored(
            deeds,
            k + 6 + 4 * i,
            input + 32 + (#[trigger] staged[i]).dci * if wide {
                64int
            } else {
                32
            },
            staged[i],
        )
}

proof fn lemma_described_longer(
    deeds: Seq<Deed>,
    more: Seq<Deed>,
    k: int,
    input: u64,
    wide: bool,
    speed: u8,
    port: u8,
    staged: Seq<Staged>,
)
    requires
        described_as_asked(deeds, k, input, wide, speed, port, staged),
        deeds.len() <= more.len(),
        more.take(deeds.len() as int) == deeds,
    ensures
        described_as_asked(more, k, input, wide, speed, port, staged),
{
    reveal(described_as_asked);
    assert forall|j: int| 0 <= j < deeds.len() implies #[trigger] more[j] == deeds[j] by {
        assert(more.take(deeds.len() as int)[j] == deeds[j]);
    }
}

proof fn lemma_words_described(
    staged: Seq<Staged>,
    d6: Seq<Deed>,
    after: Seq<Deed>,
    k: int,
    input: u64,
    wide: bool,
    speed: u8,
    port: u8,
    flags: u32,
    last: u8,
)
    requires
        0 <= k,
        d6.len() == k + 6,
        after.len() == k + 6 + 4 * staged.len(),
        after.take(k + 6) == d6,
        names_all(flags, staged),
        staged.len() > 0 ==> is_last(last, staged),
        holds_word(d6[k], input as int, 0),
        holds_word(d6[k + 1], input + 4, flags as int),
        staged.len() > 0 ==> holds_word(
            d6[k + 2],
            input + 32,
            last * 0x800_0000 + speed % 16 * 0x1_0000,
        ),
        holds_word(d6[k + 3], input + 36, port * 0x1_0000),
        holds_word(d6[k + 4], input + 40, 0),
        holds_word(d6[k + 5], input + 44, 0),
        forall|i: int|
            0 <= i < staged.len() ==> context_stored(
                after,
                k + 6 + 4 * i,
                input + 32 + (#[trigger] staged[i]).dci * if wide {
                    64int
                } else {
                    32
                },
                staged[i],
            ),
    ensures
        described_as_asked(after, k, input, wide, speed, port, staged),
{
    reveal(described_as_asked);
    assert forall|j: int| 0 <= j < d6.len() implies #[trigger] after[j] == d6[j] by {
        assert(after.take(k + 6)[j] == d6[j]);
    }
}

/// The flags name the context of the slot and those of the endpoints.
proof fn lemma_all_named(staged: Seq<Staged>)
    requires
        forall|i: int| 0 <= i < staged.len() ==> 2 <= (#[trigger] staged[i]).dci < 32,
    ensures
        names_all(add_flags(staged), staged),
{
    let flags = add_flags(staged);
    assert forall|b: u32| b < 32 implies ((#[trigger] (flags >> b)) & 1 == 1 <==> b == 0
        || exists|i: int| 0 <= i < staged.len() && (#[trigger] staged[i]).dci == b) by {
        lemma_flags(staged, b);
    }
}

#[verifier::rlimit(60)]
#[verifier::spinoff_prover]
proof fn lemma_described_as_asked(
    c: XhciController,
    device: UsbDevice,
    s: ConfiguringView,
    deeds: Seq<Deed>,
    input: u64,
)
    requires
        set_up(s),
        describe(c, device, s, deeds, input).result is Ok,
    ensures
        ({
            let told = describe(c, device, s, deeds, input).deeds;
            &&& told.len() == deeds.len() + 6 + 4 * s.staged.len()
            &&& described_as_asked(
                told,
                deeds.len() as int,
                input,
                c.caps.context_64,
                device.device.speed_raw,
                device.device.handle.root_port,
                s.staged,
            )
        }),
{
    let k = deeds.len() as int;
    let staged = s.staged;
    let flags = add_flags(staged);
    let last = last_context(staged);
    let speed = device.device.speed_raw;
    let port = device.device.handle.root_port;
    let slot = slot_word(speed, last);
    let port_word = (port * 0x1_0000) as u32;
    assert forall|i: int| 0 <= i < staged.len() implies is_set_up(
        #[trigger] staged[i],
        staged[i].config,
    ) && 2 <= staged[i].dci < 32 by {
        assert(is_set_up(staged[i], s.configs[i]));
    }
    lemma_described(c, device, s, deeds, input);
    let d1 = deeds.push(Deed::Store { address: input, bytes: to_le32(0) });
    let d2 = d1.push(Deed::Store { address: (input + 4) as u64, bytes: to_le32(flags) });
    let d3 = d2.push(Deed::Store { address: (input + 32) as u64, bytes: to_le32(slot) });
    let d4 = d3.push(Deed::Store { address: (input + 36) as u64, bytes: to_le32(port_word) });
    let d5 = d4.push(Deed::Store { address: (input + 40) as u64, bytes: to_le32(0) });
    let d6 = d5.push(Deed::Store { address: (input + 44) as u64, bytes: to_le32(0) });
    lemma_holds(input, 0);
    lemma_holds((input + 4) as u64, flags);
    lemma_holds((input + 32) as u64, slot);
    lemma_holds((input + 36) as u64, port_word);
    lemma_holds((input + 40) as u64, 0);
    lemma_holds((input + 44) as u64, 0);
    lemma_contexts(d6, input, c.caps.context_64, staged, 0);
    lemma_last_context(staged);
    lemma_all_named(staged);
    if staged.len() > 0 {
        assert(staged[0].dci >= 2);
        assert(is_last(last, staged));
        assert(slot == last * 0x800_0000 + speed % 16 * 0x1_0000);
    }
    let after = describe(c, device, s, deeds, input).deeds;
    assert(after.take(k + 6) == d6);
    lemma_words_described(
        staged,
        d6,
        after,
        k,
        input,
        c.caps.context_64,
        speed,
        port,
        flags,
        last,
    );
}

proof fn lemma_configure_entry(input: u64, slot: u8)
    ensures
        configure_entry(input, slot) == to_le64(input) + to_le32(0) + to_le32(
            (12u32 * 1024 + slot * 0x100_0000) as u32,
        ),
{
}

/// Describing the endpoints is followed by the command.
proof fn lemma_sent(
    c: XhciController,
    device: UsbDevice,
    s: ConfiguringView,
    input: u64,
    cpu: u64,
    deeds: Seq<Deed>,
)
    requires
        s.stage is Input,
        configure_step(c, device, s, Answer::Memory { cpu, device: input }, deeds).result is Ok,
    ensures
        ({
            let after = configure_step(
                c,
                device,
                s,
                Answer::Memory { cpu, device: input },
                deeds,
            );
            let told = describe(c, device, s, deeds, input);
            let slot = device.device.handle.slot_id;
            let sent = command_step(c, told.deeds, configure_entry(input, slot));
            let (t, done) = after.result->Ok_0;
            &&& told.result is Ok
            &&& sent.result is Ok
            &&& after.deeds == sent.deeds.push(Deed::Time)
            &&& done is None && t.stage is Wait && t.staged == s.staged
            &&& t.wait.pointer == sent.result->Ok_0
        }),
{
}

/// When the memory for the contexts is there, the controller is told of each endpoint as it was
/// asked for, and of nothing else. Then the command of kind 12 for the slot is put on the command
/// ring, and the controller is told.
pub proof fn law_endpoints_are_described_as_asked(
    c: XhciController,
    device: UsbDevice,
    s: ConfiguringView,
    input: u64,
    cpu: u64,
    deeds: Seq<Deed>,
)
    requires
        set_up(s),
        c.wf(),
        s.stage is Input,
        configure_step(c, device, s, Answer::Memory { cpu, device: input }, deeds).result is Ok,
    ensures
        ({
            let after = configure_step(
                c,
                device,
                s,
                Answer::Memory { cpu, device: input },
                deeds,
            );
            let k = deeds.len() as int;
            let n = after.deeds.len() as int;
            let (t, done) = after.result->Ok_0;
            &&& done is None && t.stage is Wait && t.staged == s.staged
            &&& described_as_asked(
                after.deeds,
                k,
                input,
                c.caps.context_64,
                device.device.speed_raw,
                device.device.handle.root_port,
                s.staged,
            )
            &&& n == k + 6 + 4 * s.staged.len() + 4
            &&& t.wait.pointer == c.cmd_phys + 16 * c.cmd_enqueue
            &&& exists|bytes: Seq<u8>| #[trigger]
                stores(after.deeds, n - 4, t.wait.pointer as int, bytes) && is_request(
                    bytes,
                    input as int,
                    0,
                    12,
                    device.device.handle.slot_id * 0x100_0000,
                    c.cmd_cycle,
                )
            &&& after.deeds[n - 2] == Deed::Write { offset: c.db_base, value: 0 }
        }),
{
    let after = configure_step(c, device, s, Answer::Memory { cpu, device: input }, deeds);
    let told = describe(c, device, s, deeds, input);
    assert(told.result is Ok);
    let k = deeds.len() as int;
    let n = after.deeds.len() as int;
    let m = told.deeds.len() as int;
    let slot = device.device.handle.slot_id;
    lemma_described_as_asked(c, device, s, deeds, input);
    lemma_command(c, told.deeds, input, 12, slot);
    lemma_configure_entry(input, slot);
    let sent = command_step(c, told.deeds, configure_entry(input, slot));
    lemma_sent(c, device, s, input, cpu, deeds);
    assert(after.deeds == sent.deeds.push(Deed::Time));
    assert(after.deeds.take(m) =~= sent.deeds.take(m));
    lemma_described_longer(
        told.deeds,
        after.deeds,
        k,
        input,
        c.caps.context_64,
        device.device.speed_raw,
        device.device.handle.root_port,
        s.staged,
    );
    let bytes = choose|bytes: Seq<u8>| #[trigger]
        stores(sent.deeds, m, sent.result->Ok_0 as int, bytes) && is_request(
            bytes,
            input as int,
            0,
            12,
            slot * 0x100_0000,
            c.cmd_cycle,
        );
    assert(stores(after.deeds, n - 4, c.cmd_phys + 16 * c.cmd_enqueue, bytes));
}

} // verus!
