//! What the search for functions and controllers finds.
use vstd::prelude::*;

use super::{
    all_controllers, all_functions, controllers_from, device_in, first_pch, functions_from,
    lemma_slots_in_order, only_one, preferred, rank, slot_function, slots_from, Found, PciAddress,
    PciConfig, PciError,
};

verus! {

/// The function with a number of a device on a bus.
pub open spec fn at(bus: u8, device: u8, function: u8) -> PciAddress {
    PciAddress { segment: 0, bus, device, function }
}

/// An address answers with a vendor.
pub open spec fn answers<C: PciConfig>(config: C, address: PciAddress) -> bool {
    config.register(address, 0) matches Ok(id) && id % 0x1_0000 != 0xFFFF
}

/// A device has more functions than its first: bit 23 of the header register of that one says so.
pub open spec fn has_more<C: PciConfig>(config: C, bus: u8, device: u8) -> bool {
    config.register(at(bus, device, 0), 12) matches Ok(header) && header / 0x80_0000 % 2 == 1
}

/// There is a function at an address: the first of a device answers, and so does this one, which is
/// the first itself or one of seven more.
pub open spec fn is_there<C: PciConfig>(config: C, address: PciAddress) -> bool {
    &&& address.segment == 0
    &&& address.device < 32
    &&& address.function < 8
    &&& answers(config, at(address.bus, address.device, 0))
    &&& answers(config, address)
    &&& address.function == 0 || has_more(config, address.bus, address.device)
}

/// There is a function at an address, with a class code.
pub open spec fn is_listed<C: PciConfig>(config: C, entry: (PciAddress, u32)) -> bool {
    &&& is_there(config, entry.0)
    &&& config.register(entry.0, 8) matches Ok(class) && entry.1 == class / 256
}

/// A function is a USB controller of the right kind, and no bridge.
pub open spec fn is_controller<C: PciConfig>(config: C, address: PciAddress) -> bool {
    &&& is_there(config, address)
    &&& config.register(address, 8) matches Ok(class) && class / 256 == 0x0C_0330
    &&& config.register(address, 12) matches Ok(header) && header / 0x1_0000 % 128 == 0
}

/// Looking at the functions of a device keeps what was found, adds those that answer, and nothing
/// else.
proof fn lemma_functions<C: PciConfig>(
    config: C,
    bus: u8,
    device: u8,
    function: int,
    count: int,
    found: Found,
)
    requires
        device < 32,
        0 <= function <= count <= 8,
    ensures
        functions_from(config, bus * 32 + device, function, count, found) matches Ok(all) ==> {
            &&& forall|e: (PciAddress, u32)| #[trigger] found.contains(e) ==> all.contains(e)
            &&& forall|g: u8|
                function <= g < count ==> config.register(#[trigger] at(bus, device, g), 0) is Ok
            &&& forall|g: u8|
                function <= g < count && answers(config, #[trigger] at(bus, device, g)) ==> (
                config.register(at(bus, device, g), 8) matches Ok(class) && all.contains(
                    (at(bus, device, g), class / 256),
                ))
            &&& forall|e: (PciAddress, u32)| #[trigger]
                all.contains(e) && !found.contains(e) ==> {
                    &&& e.0 == at(bus, device, e.0.function)
                    &&& function <= e.0.function < count
                    &&& answers(config, e.0)
                    &&& config.register(e.0, 8) matches Ok(class) && e.1 == class / 256
                }
        },
        functions_from(config, bus * 32 + device, function, count, found) matches Err(e) ==> {
            &&& e == PciError::Transport
            &&& exists|g: u8|
                function <= g < count && (config.register(#[trigger] at(bus, device, g), 0) is Err
                    || config.register(at(bus, device, g), 8) is Err)
        },
    decreases count - function,
{
    let slot = bus * 32 + device;
    if function < count {
        let here = at(bus, device, function as u8);
        assert(slot_function(slot, function) == here);
        if let Ok(id) = config.register(here, 0) {
            if id % 0x1_0000 == 0xFFFF {
                lemma_functions(config, bus, device, function + 1, count, found);
                assert(!answers(config, here));
            } else if let Ok(class) = config.register(here, 8) {
                let entry = (here, class / 256);
                let more = found.push(entry);
                lemma_functions(config, bus, device, function + 1, count, more);
                assert(more[found.len() as int] == entry);
                assert(more.contains(entry));
                assert forall|e: (PciAddress, u32)| #[trigger] found.contains(e) implies
                    more.contains(e) by {
                    let i = choose|i: int| 0 <= i < found.len() && found[i] == e;
                    assert(more[i] == e);
                }
                assert forall|e: (PciAddress, u32)| #[trigger] more.contains(e) implies
                    found.contains(e) || e == entry by {
                    let i = choose|i: int| 0 <= i < more.len() && more[i] == e;
                    if i < found.len() {
                        assert(found[i] == e);
                    }
                }
            }
        }
    }
}

/// Looking at a device keeps what was found, adds its functions, and nothing else.
proof fn lemma_device<C: PciConfig>(config: C, bus: u8, device: u8, found: Found)
    requires
        device < 32,
    ensures
        device_in(config, bus * 32 + device, found) matches Ok(all) ==> {
            &&& forall|e: (PciAddress, u32)| #[trigger] found.contains(e) ==> all.contains(e)
            &&& forall|g: u8|
                is_there(config, #[trigger] at(bus, device, g)) ==> (config.register(
                    at(bus, device, g),
                    8,
                ) matches Ok(class) && all.contains((at(bus, device, g), class / 256)))
            &&& forall|e: (PciAddress, u32)| #[trigger]
                all.contains(e) && !found.contains(e) ==> e.0.bus == bus && e.0.device == device
                    && is_listed(config, e)
        },
        device_in(config, bus * 32 + device, found) is Err <==> fails(config, bus, device),
        device_in(config, bus * 32 + device, found) matches Err(e) ==> e == PciError::Transport
            || config.register(at(bus, device, 0), 0) == Err::<u32, PciError>(e),
{
    let slot = bus * 32 + device;
    let first = at(bus, device, 0);
    assert(slot_function(slot, 0) == first);
    if answers(config, first) && config.register(first, 12) is Ok {
        let count: int = if has_more(config, bus, device) {
            8
        } else {
            1
        };
        lemma_functions(config, bus, device, 0, count, found);
        if let Err(e) = functions_from(config, slot, 0, count, found) {
            let g = choose|g: u8|
                0 <= g < count && (config.register(#[trigger] at(bus, device, g), 0) is Err
                    || config.register(at(bus, device, g), 8) is Err);
            lemma_functions_fail(config, bus, device, 0, count, found);
        } else {
            assert forall|g: u8| !#[trigger] unreadable(config, bus, device, g) by {
                assert(at(bus, device, g) == at(bus, device, g));
            }
        }
    } else if answers(config, first) {
        assert(unreadable(config, bus, device, 0) || config.register(first, 12) is Err);
    }
}

/// A function that is looked at cannot be read: its vendor, or where it answers its class.
pub open spec fn unreadable<C: PciConfig>(config: C, bus: u8, device: u8, function: u8) -> bool {
    let here = at(bus, device, function);
    &&& function < 8
    &&& function == 0 || has_more(config, bus, device)
    &&& config.register(here, 0) is Err || answers(config, here) && config.register(here, 8) is Err
}

/// A device cannot be looked at: its first function fails for another reason than that there is no
/// such place, or one of its registers cannot be read.
pub open spec fn fails<C: PciConfig>(config: C, bus: u8, device: u8) -> bool {
    let first = at(bus, device, 0);
    ||| config.register(first, 0) matches Err(e) && e != PciError::OutOfRange
    ||| answers(config, first) && config.register(first, 12) is Err
    ||| answers(config, first) && exists|function: u8| #[trigger]
        unreadable(config, bus, device, function)
}

/// A function that cannot be read stops the search among the functions of its device, and only that
/// does.
proof fn lemma_functions_fail<C: PciConfig>(
    config: C,
    bus: u8,
    device: u8,
    function: int,
    count: int,
    found: Found,
)
    requires
        device < 32,
        0 <= function <= count <= 8,
        count == (if has_more(config, bus, device) {
            8int
        } else {
            1
        }),
    ensures
        functions_from(config, bus * 32 + device, function, count, found) is Err ==> exists|g: u8|
            #[trigger] unreadable(config, bus, device, g),
    decreases count - function,
{
    let slot = bus * 32 + device;
    if function < count {
        let here = at(bus, device, function as u8);
        assert(slot_function(slot, function) == here);
        if let Ok(id) = config.register(here, 0) {
            if id % 0x1_0000 == 0xFFFF {
                lemma_functions_fail(config, bus, device, function + 1, count, found);
            } else if let Ok(class) = config.register(here, 8) {
                lemma_functions_fail(
                    config,
                    bus,
                    device,
                    function + 1,
                    count,
                    found.push((here, class / 256)),
                );
            } else {
                assert(unreadable(config, bus, device, function as u8));
            }
        } else {
            assert(unreadable(config, bus, device, function as u8));
        }
    }
}

proof fn lemma_slots<C: PciConfig>(config: C, slot: int, found: Found)
    requires
        0 <= slot <= 8192,
    ensures
        slots_from(config, slot, found) matches Ok(all) ==> {
            &&& forall|e: (PciAddress, u32)| #[trigger] found.contains(e) ==> all.contains(e)
            &&& forall|a: PciAddress| #[trigger]
                is_there(config, a) && a.bus * 32 + a.device >= slot ==> (config.register(
                    a,
                    8,
                ) matches Ok(class) && all.contains((a, class / 256)))
            &&& forall|e: (PciAddress, u32)| #[trigger]
                all.contains(e) && !found.contains(e) ==> is_listed(config, e)
            &&& forall|bus: u8, device: u8|
                device < 32 && bus * 32 + device >= slot ==> !#[trigger] fails(config, bus, device)
        },
        slots_from(config, slot, found) matches Err(e) ==> exists|bus: u8, device: u8|
            device < 32 && #[trigger] fails(config, bus, device) && (e == PciError::Transport
                || config.register(at(bus, device, 0), 0) == Err::<u32, PciError>(e)),
    decreases 8192 - slot,
{
    if slot < 8192 {
        let bus = (slot / 32) as u8;
        let device = (slot % 32) as u8;
        assert(bus * 32 + device == slot);
        lemma_device(config, bus, device, found);
        if let Ok(more) = device_in(config, slot, found) {
            lemma_slots(config, slot + 1, more);
            if let Ok(all) = slots_from(config, slot, found) {
                assert forall|a: PciAddress| #[trigger]
                    is_there(config, a) && a.bus * 32 + a.device >= slot implies (config.register(
                    a,
                    8,
                ) matches Ok(class) && all.contains((a, class / 256))) by {
                    if a.bus * 32 + a.device == slot {
                        assert(a.bus == bus && a.device == device);
                        assert(a == at(bus, device, a.function));
                        assert(is_there(config, at(bus, device, a.function)));
                    }
                }
                assert forall|b: u8, d: u8| d < 32 && b * 32 + d >= slot implies !#[trigger] fails(
                    config,
                    b,
                    d,
                ) by {
                    if b * 32 + d == slot {
                        assert(b == bus && d == device);
                    }
                }
            }
        } else {
            assert(fails(config, bus, device));
        }
    } else {
        assert forall|a: PciAddress| #[trigger] is_there(config, a) implies a.bus * 32 + a.device
            < slot by {}
    }
}

/// The search finds every function there is, with its class code, and nothing else. Functions stand
/// in the order of their buses, devices and numbers, each once.
pub proof fn law_the_search_is_complete<C: PciConfig>(config: C)
    ensures
        all_functions(config) matches Ok(found) ==> {
            &&& forall|a: PciAddress| #[trigger]
                is_there(config, a) ==> (config.register(a, 8) matches Ok(class) && found.contains(
                    (a, class / 256),
                ))
            &&& forall|i: int| 0 <= i < found.len() ==> is_listed(config, #[trigger] found[i])
            &&& forall|i: int, j: int|
                0 <= i < j < found.len() ==> rank((#[trigger] found[i]).0) < rank(
                    (#[trigger] found[j]).0,
                )
        },
{
    lemma_slots(config, 0, Seq::empty());
    lemma_slots_in_order(config, 0, Seq::empty());
    if let Ok(found) = all_functions(config) {
        assert forall|i: int| 0 <= i < found.len() implies is_listed(config, #[trigger] found[i]) by {
            assert(found.contains(found[i]));
        }
    }
}

/// The search fails exactly where one of the devices cannot be looked at.
pub proof fn law_the_search_fails_where_a_device_does<C: PciConfig>(config: C)
    ensures
        all_functions(config) is Err <==> exists|bus: u8, device: u8|
            device < 32 && #[trigger] fails(config, bus, device),
        all_functions(config) matches Err(e) ==> e == PciError::Transport || exists|
            bus: u8,
            device: u8,
        |
            config.register(#[trigger] at(bus, device, 0), 0) == Err::<u32, PciError>(e),
{
    lemma_slots(config, 0, Seq::empty());
    if let Err(e) = all_functions(config) {
        let (bus, device) = choose|bus: u8, device: u8|
            device < 32 && #[trigger] fails(config, bus, device) && (e == PciError::Transport
                || config.register(at(bus, device, 0), 0) == Err::<u32, PciError>(e));
        assert(at(bus, device, 0) == at(bus, device, 0));
    }
}

/// A function that was found is a USB controller, and no bridge.
spec fn picks<C: PciConfig>(config: C, entry: (PciAddress, u32)) -> bool {
    &&& entry.1 == 0x0C_0330
    &&& config.register(entry.0, 12) matches Ok(header) && header / 0x1_0000 % 128 == 0
}

proof fn lemma_controllers<C: PciConfig>(
    config: C,
    functions: Found,
    from: int,
    found: Seq<PciAddress>,
)
    requires
        0 <= from <= functions.len(),
    ensures
        controllers_from(config, functions, from, found) matches Ok(all) ==> {
            &&& forall|a: PciAddress| #[trigger] found.contains(a) ==> all.contains(a)
            &&& forall|i: int|
                from <= i < functions.len() && picks(config, #[trigger] functions[i])
                    ==> all.contains(functions[i].0)
            &&& forall|a: PciAddress| #[trigger]
                all.contains(a) && !found.contains(a) ==> exists|i: int|
                    from <= i < functions.len() && picks(config, #[trigger] functions[i])
                        && functions[i].0 == a
        },
    decreases functions.len() - from,
{
    if from < functions.len() {
        let (address, code) = functions[from];
        if code != 0x0C_0330 {
            lemma_controllers(config, functions, from + 1, found);
        } else if let Ok(header) = config.register(address, 12) {
            if header / 0x1_0000 % 128 != 0 {
                lemma_controllers(config, functions, from + 1, found);
            } else {
                let more = found.push(address);
                lemma_controllers(config, functions, from + 1, more);
                assert(picks(config, functions[from]));
                assert(more[found.len() as int] == address);
                assert(more.contains(address));
                assert forall|a: PciAddress| #[trigger] found.contains(a) implies more.contains(
                    a,
                ) by {
                    let i = choose|i: int| 0 <= i < found.len() && found[i] == a;
                    assert(more[i] == a);
                }
                assert forall|a: PciAddress| #[trigger] more.contains(a) implies found.contains(a)
                    || a == address by {
                    let i = choose|i: int| 0 <= i < more.len() && more[i] == a;
                    if i < found.len() {
                        assert(found[i] == a);
                    }
                }
            }
        }
    }
}

/// The controllers that are found are those there are.
pub proof fn law_controllers_are_those_there_are<C: PciConfig>(config: C)
    ensures
        all_controllers(config) matches Ok(found) ==> forall|a: PciAddress|
            found.contains(a) <==> #[trigger] is_controller(config, a),
{
    law_the_search_is_complete(config);
    if let Ok(functions) = all_functions(config) {
        lemma_controllers(config, functions, 0, Seq::empty());
        if let Ok(found) = all_controllers(config) {
            assert forall|a: PciAddress| found.contains(a) <==> #[trigger] is_controller(
                config,
                a,
            ) by {
                if is_controller(config, a) {
                    let class = config.register(a, 8)->Ok_0;
                    let entry = (a, class / 256);
                    assert(is_there(config, a));
                    let i = choose|i: int| 0 <= i < functions.len() && functions[i] == entry;
                    assert(picks(config, functions[i]));
                }
                if found.contains(a) {
                    let i = choose|i: int|
                        0 <= i < functions.len() && picks(config, #[trigger] functions[i])
                            && functions[i].0 == a;
                    assert(is_listed(config, functions[i]));
                }
            }
        }
    }
}

/// The one controller is given exactly where there is one.
pub proof fn law_the_only_controller(found: Seq<PciAddress>)
    ensures
        match only_one(found) {
            Ok(a) => found == seq![a],
            Err(e) => if found.len() == 0 {
                e == PciError::NoXhci
            } else {
                found.len() > 1 && e == PciError::MultipleXhci
            },
        },
{
    if found.len() == 1 {
        assert(found =~= seq![found[0]]);
    }
}

proof fn lemma_first_pch(candidates: Seq<PciAddress>, from: int)
    requires
        0 <= from <= candidates.len(),
    ensures
        match first_pch(candidates, from) {
            Some(a) => a.bus == 0 && a.device == 20 && a.function == 0 && candidates.contains(a),
            None => forall|i: int|
                from <= i < candidates.len() ==> !((#[trigger] candidates[i]).bus == 0
                    && candidates[i].device == 20 && candidates[i].function == 0),
        },
    decreases candidates.len() - from,
{
    if from < candidates.len() {
        lemma_first_pch(candidates, from + 1);
        assert(candidates.contains(candidates[from]));
    }
}

/// The controller to use is one of the candidates: that at bus 0, device 20, function 0 if it is
/// among them, else the first.
pub proof fn law_the_chipset_is_preferred(candidates: Seq<PciAddress>)
    ensures
        preferred(candidates) is None <==> candidates.len() == 0,
        preferred(candidates) matches Some(a) ==> {
            let chipset = |b: PciAddress| b.bus == 0 && b.device == 20 && b.function == 0;
            &&& candidates.contains(a)
            &&& (exists|i: int| 0 <= i < candidates.len() && chipset(#[trigger] candidates[i]))
                ==> chipset(a)
            &&& (forall|i: int| 0 <= i < candidates.len() ==> !chipset(#[trigger] candidates[i]))
                ==> a == candidates[0]
        },
{
    lemma_first_pch(candidates, 0);
    if candidates.len() > 0 {
        assert(candidates.contains(candidates[0]));
        if let Some(a) = first_pch(candidates, 0) {
            let i = choose|i: int| 0 <= i < candidates.len() && candidates[i] == a;
            assert(candidates[i] == a);
        }
    }
}

} // verus!
