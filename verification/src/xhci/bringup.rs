//! Bringing a controller up, register by register and bit by bit.
use vstd::prelude::*;

use crate::xhci::plan::Deed;
use crate::xhci::startup::{
    after_memory, after_ticks, after_word, publish, Milestone, Stage, Startup,
};

verus! {

/// The last deeds write two words, the lower first, from an offset on.
pub open spec fn writes_address(deeds: Seq<Deed>, k: int, offset: int, value: int) -> bool {
    &&& 0 <= k && k + 2 <= deeds.len()
    &&& deeds[k] matches Deed::Write { offset: low_at, value: low } && deeds[k
        + 1] matches Deed::Write { offset: high_at, value: high } && {
        &&& low_at == offset && high_at == offset + 4
        &&& low + 0x1_0000_0000 * high == value
    }
}

/// The block of capability registers tells where the others are: its own length is where the
/// operational registers start, and the words at 20 and 24 are where the doorbells and the
/// runtime registers do. The upper half of the word at 16 is where the further capabilities
/// start, in words.
pub proof fn law_registers_are_where_the_controller_says(s: Startup, word: u32, deeds: Seq<Deed>)
    ensures
        ({
            let after = after_word(s, word, deeds);
            &&& s.stage is Lengths ==> (after.result matches Ok((t, _)) ==> {
                &&& t.bases.op == word & 0xFF
                &&& word & 0xFF >= 32 && word >> 16 >= 0x100
                &&& t.stage is Parameters
                &&& after.deeds == deeds.push(Deed::Read { offset: 16 })
            })
            &&& s.stage is Parameters ==> (after.result matches Ok((t, _)) ==> {
                &&& word & 1 != 0
                &&& t.xecp == word >> 16
                &&& t.stage is Doorbells
                &&& after.deeds == deeds.push(Deed::Read { offset: 20 })
            })
            &&& s.stage is Doorbells ==> (after.result matches Ok((t, _)) ==> {
                &&& t.bases.db == word
                &&& t.stage is Runtime
                &&& after.deeds == deeds.push(Deed::Read { offset: 24 })
            })
            &&& s.stage is Runtime ==> (after.result matches Ok((t, _)) ==> {
                &&& t.bases.rt == word && t.bases.op == s.bases.op && t.bases.db == s.bases.db
                &&& t.bases.rt < s.registers.len && t.bases.op < s.registers.len && t.bases.db
                    < s.registers.len
                &&& s.xecp == 0 ==> after.deeds == deeds.push(Deed::Read { offset: s.bases.op })
                &&& s.xecp != 0 ==> after.deeds == deeds.push(
                    Deed::Read { offset: (4 * s.xecp) as u32 },
                )
            })
        }),
{
    assert(word & 0xFF == word % 256) by (bit_vector);
    assert(word >> 16 == word / 0x1_0000) by (bit_vector);
    assert(word & 1 != 0 <==> word % 2 == 1) by (bit_vector);
}

/// The firmware is asked for the controller where it holds it: bit 24 of the capability is set,
/// and bit 16 must clear. Then the five flags by which it is called are cleared in the next word.
/// The next capability is as many words on as the second byte says.
pub proof fn law_the_firmware_lets_go(
    s: Startup,
    word: u32,
    offset: u32,
    seen: u32,
    next: u32,
    deadline: u64,
    deeds: Seq<Deed>,
)
    ensures
        ({
            let after = after_word(s, word, deeds);
            let behind = (word >> 8) & 0xFF;
            &&& s.stage == (Stage::Legacy { offset, seen }) ==> {
                &&& word & 0xFF == 1 ==> (after.result matches Ok((t, _)) ==> {
                    &&& after.deeds == deeds.push(
                        Deed::Write { offset, value: word | 0x100_0000 },
                    ).push(Deed::Time)
                    &&& t.stage == Stage::Deadline(
                        Milestone::Ownership { offset, seen, next: behind },
                    )
                })
                &&& word & 0xFF != 1 && behind != 0 && seen < 31 ==> (after.result matches Ok(
                    (t, _),
                ) ==> {
                    &&& after.deeds == deeds.push(
                        Deed::Read { offset: (offset + 4 * behind) as u32 },
                    )
                    &&& t.stage == Stage::Legacy {
                        offset: (offset + 4 * behind) as u32,
                        seen: (seen + 1) as u32,
                    }
                })
                &&& word & 0xFF != 1 && (behind == 0 || seen >= 31) ==> (after.result matches Ok(
                    (t, _),
                ) ==> {
                    &&& after.deeds == deeds.push(Deed::Read { offset: s.bases.op })
                    &&& t.stage is Stop
                })
            }
            &&& s.stage == Stage::Watch(Milestone::Ownership { offset, seen, next }, deadline) ==> {
                &&& word & 0x1_0000 == 0 ==> (after.result matches Ok((t, _)) ==> {
                    &&& after.deeds == deeds.push(Deed::Read { offset: (offset + 4) as u32 })
                    &&& t.stage == Stage::LegacyControl { offset, seen, next }
                })
                &&& word & 0x1_0000 != 0 ==> after.deeds == deeds.push(Deed::Time)
            }
            &&& s.stage == (Stage::LegacyControl { offset, seen, next }) ==> (
            after.result matches Ok((t, _)) ==> {
                &&& after.deeds.len() == deeds.len() + 2
                &&& after.deeds[deeds.len() as int] == Deed::Write {
                    offset: (offset + 4) as u32,
                    value: word & 0xFFFF_FFE0,
                }
            })
        }),
{
    assert(word & 0xFF == word % 256) by (bit_vector);
    assert((word >> 8) & 0xFF == word / 256 % 256) by (bit_vector);
    assert(word & 0x1_0000 == 0 <==> word / 0x1_0000 % 2 == 0) by (bit_vector);
    assert(word & !0x1Fu32 == word & 0xFFFF_FFE0) by (bit_vector);
}

/// The controller is stopped, reset and started by bits 0 and 1 of its command register, bit 2
/// stays clear, and every other bit is written back as it was. Each is followed by the wait for
/// its own end.
pub proof fn law_commands_change_their_own_bit(s: Startup, word: u32, deeds: Seq<Deed>)
    ensures
        ({
            let after = after_word(s, word, deeds);
            let op = s.bases.op;
            &&& s.stage is Stop ==> (after.result matches Ok((t, _)) ==> {
                &&& after.deeds == deeds.push(
                    Deed::Write { offset: op, value: word & 0xFFFF_FFFA },
                ).push(Deed::Time)
                &&& t.stage == Stage::Deadline(Milestone::Halted)
            })
            &&& s.stage is Reset ==> (after.result matches Ok((t, _)) ==> {
                &&& after.deeds == deeds.push(
                    Deed::Write { offset: op, value: (word & 0xFFFF_FFFB) | 2 },
                ).push(Deed::Time)
                &&& t.stage == Stage::Deadline(Milestone::ResetDone)
            })
            &&& s.stage is Start ==> (after.result matches Ok((t, _)) ==> {
                &&& after.deeds == deeds.push(
                    Deed::Write { offset: op, value: (word & 0xFFFF_FFFB) | 1 },
                ).push(Deed::Time)
                &&& t.stage == Stage::Deadline(Milestone::Running)
            })
        }),
{
    assert(word & !1u32 & !4u32 == word & 0xFFFF_FFFA) by (bit_vector);
    assert((word | 2) & !4u32 == (word & 0xFFFF_FFFB) | 2) by (bit_vector);
    assert((word | 1) & !4u32 == (word & 0xFFFF_FFFB) | 1) by (bit_vector);
}

/// Waiting looks at the register that tells: bit 0 of the status for a controller that halted,
/// bit 1 of the command register for the end of the reset, bit 11 of the status for one that is
/// ready again, and bit 0 of the status for one that runs. Only when the bit is right does the
/// startup go on.
pub proof fn law_waits_look_at_the_right_bit(
    s: Startup,
    word: u32,
    deadline: u64,
    ticks: u64,
    deeds: Seq<Deed>,
)
    ensures
        ({
            let after = after_word(s, word, deeds);
            let looked = after_ticks(s, ticks, deeds);
            let op = s.bases.op;
            let status = deeds.push(Deed::Read { offset: (op + 4) as u32 });
            let command = deeds.push(Deed::Read { offset: op });
            &&& s.stage == Stage::Deadline(Milestone::Halted) || s.stage == Stage::Deadline(
                Milestone::ReadyAgain,
            ) || s.stage == Stage::Deadline(Milestone::Running) ==> (looked.result is Ok
                ==> looked.deeds == status)
            &&& s.stage == Stage::Deadline(Milestone::ResetDone) ==> (looked.result is Ok
                ==> looked.deeds == command)
            &&& s.stage == Stage::Watch(Milestone::Halted, deadline) ==> (after.result matches Ok(
                (t, _),
            ) ==> if word & 1 != 0 {
                after.deeds == command && t.stage is Reset
            } else {
                after.deeds == deeds.push(Deed::Time) && t.stage is Pause
            })
            &&& s.stage == Stage::Watch(Milestone::ResetDone, deadline) ==> (
            after.result matches Ok((t, _)) ==> after.deeds == deeds.push(Deed::Time) && if word & 2
                == 0 {
                t.stage == Stage::Deadline(Milestone::ReadyAgain)
            } else {
                t.stage is Pause
            })
            &&& s.stage == Stage::Watch(Milestone::ReadyAgain, deadline) ==> (
            after.result matches Ok((t, _)) ==> if word & 0x800 == 0 {
                after.deeds == deeds.push(Deed::Read { offset: (op + 8) as u32 })
                    && t.stage is PageSize
            } else {
                after.deeds == deeds.push(Deed::Time) && t.stage is Pause
            })
            &&& s.stage == Stage::Watch(Milestone::Running, deadline) ==> (after.result matches Ok(
                (t, _),
            ) ==> if word & 1 == 0 {
                after.deeds == deeds.push(Deed::EnableBusMaster { device: s.address })
                    && t.stage is Master
            } else {
                after.deeds == deeds.push(Deed::Time) && t.stage is Pause
            })
        }),
{
    assert(word & 1 != 0 <==> word % 2 == 1) by (bit_vector);
    assert(word & 2 == 0 <==> word / 2 % 2 == 0) by (bit_vector);
    assert(word & 0x800 == 0 <==> word / 0x800 % 2 == 0) by (bit_vector);
}

/// Memory is asked for in sizes that the controller expects: 2048 bytes for the table of
/// contexts, 1024 for each of the two rings, 64 for the table of event segments, and eight for
/// each of the controller's own pages, which are 4096 bytes each. What is given out is kept as
/// what it was asked for.
pub proof fn law_memory_is_kept_as_asked(s: Startup, cpu: u64, device: u64, deeds: Seq<Deed>)
    requires
        after_memory(s, cpu, device, deeds).result is Ok,
    ensures
        ({
            let after = after_memory(s, cpu, device, deeds);
            let (t, _) = after.result->Ok_0;
            let pages = s.caps.scratchpad_count;
            &&& s.stage is Contexts ==> {
                &&& t.dcbaa == device && t.dcbaa_cpu == cpu && t.stage is Commands
                &&& after.deeds == deeds.push(Deed::Allocate { size: 1024, align: 64 })
            }
            &&& s.stage is Commands ==> {
                &&& t.cmd == device && t.dcbaa == s.dcbaa && t.stage is Events
                &&& after.deeds == deeds.push(Deed::Allocate { size: 1024, align: 64 })
            }
            &&& s.stage is Events ==> {
                &&& t.evt == device && t.cmd == s.cmd && t.dcbaa == s.dcbaa && t.stage is Table
                &&& after.deeds == deeds.push(Deed::Allocate { size: 64, align: 64 })
            }
            &&& s.stage is Table ==> {
                &&& t.erst == device && t.erst_cpu == cpu && t.evt == s.evt && t.cmd == s.cmd
                    && t.dcbaa == s.dcbaa
                &&& pages == 0 ==> t.array == 0
                &&& pages > 0 ==> t.stage is Array && after.deeds == deeds.push(
                    Deed::Allocate { size: (8 * pages) as usize, align: 64 },
                )
            }
            &&& s.stage is Array ==> {
                &&& t.array == device && t.array_cpu == cpu && t.stage == Stage::Page { index: 0 }
                &&& after.deeds == deeds.push(Deed::Allocate { size: 4096, align: 4096 })
            }
        }),
{
}

/// The controller is told where its memory is, in the registers that are for it: the table of
/// contexts at 0x30 of the operational registers, and the command ring at 0x18, with bit 0 for
/// the first round. Then the slots are enabled at 0x38.
pub proof fn law_memory_is_handed_over_in_place(s: Startup, deeds: Seq<Deed>)
    requires
        publish(s, deeds).result is Ok,
    ensures
        ({
            let told = publish(s, deeds).deeds;
            let n = deeds.len() as int;
            &&& told.len() == n + 11
            &&& writes_address(told, n + 5, s.bases.op + 0x30, s.dcbaa as int)
            &&& writes_address(told, n + 7, s.bases.op + 0x18, s.cmd + 1)
            &&& s.cmd % 64 == 0 && s.dcbaa % 64 == 0 && s.evt % 64 == 0 && s.erst % 64 == 0
            &&& told[n + 9] == Deed::Write { offset: (s.bases.rt + 0x20) as u32, value: 1 }
            &&& told[n + 10] == Deed::Read { offset: (s.bases.op + 0x38) as u32 }
        }),
{
}

/// The lowest byte of the configuration is the number of slots, of which 32 are used at most;
/// the rest of it is left.
pub proof fn law_slots_are_enabled(s: Startup, word: u32, deeds: Seq<Deed>)
    requires
        s.stage is Config,
        after_word(s, word, deeds).result is Ok,
    ensures
        after_word(s, word, deeds).deeds.len() == deeds.len() + 2,
        after_word(s, word, deeds).deeds[deeds.len() as int] matches Deed::Write { offset, value }
            && {
            &&& offset == s.bases.op + 0x38
            &&& value >> 8 == word >> 8
            &&& value & 0xFF <= 32 && value & 0xFF <= s.caps.max_slots
            &&& value & 0xFF == 32 || value & 0xFF == s.caps.max_slots
        },
        after_word(s, word, deeds).deeds.last() == (Deed::Read { offset: s.bases.op }),
{
    let slots: u8 = if s.caps.max_slots < 32 {
        s.caps.max_slots
    } else {
        32
    };
    let value = (word - word % 256 + slots) as u32;
    assert(value / 256 == word / 256 && value % 256 == slots);
    assert(value >> 8 == value / 256 && value & 0xFF == value % 256) by (bit_vector);
    assert(word >> 8 == word / 256) by (bit_vector);
}

} // verus!
