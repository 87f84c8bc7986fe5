//! What the kernel says while it starts.
use vstd::prelude::*;
use vstd::utf8::encode_utf8;

use crate::acpi::AcpiError;
use crate::console::TextOutput;
use crate::console::number::{decimal, hex, hex_byte, write_hex, write_hex_byte, write_number};
use crate::dma::DmaError;
use crate::memory::MemoryRegion;
use crate::mmio::MapError;
use crate::pci::{BarInfo, PciAddress, PciError, XhciCaps};
use crate::platform::{CandidateSnapshot, PlatformInfo, ProbeError};

verus! {

/// The kernel was entered with a record that can be used.
pub const KERNEL_ENTRY_OK: &'static str = "[relay] phase=kernel-entry status=ok\n";

/// The kernel was entered with a record that cannot be used.
pub const KERNEL_ENTRY_INVALID: &'static str = "[relay] phase=kernel-entry status=invalid\n";

/// The kernel is ready.
pub const KERNEL_RUNTIME_OK: &'static str = "[relay] phase=kernel-runtime status=ok\n";

/// The screen cannot be used.
pub const KERNEL_FRAMEBUFFER_INVALID: &'static str =
    "[relay] phase=kernel-runtime status=invalid-framebuffer\n";

/// The memory map cannot be used.
pub const KERNEL_MEMORY_MAP_INVALID: &'static str =
    "[relay] phase=kernel-runtime status=invalid-memory-map\n";

/// The firmware tables are in no region.
pub const RSDP_REGION_NONE: &'static str = "[relay] phase=platform-probe-debug rsdp_region=none\n";

/// More text.
pub open spec fn with(text: Seq<u8>, more: &str) -> Seq<u8> {
    text + encode_utf8(more@)
}

/// More text and a number in decimal digits.
pub open spec fn with_number(text: Seq<u8>, label: &str, n: int) -> Seq<u8> {
    with(text, label) + decimal(n as u64)
}

/// More text and a number in hexadecimal digits.
pub open spec fn with_hex(text: Seq<u8>, label: &str, n: u64) -> Seq<u8> {
    with(text, label) + hex(n)
}

/// A flag as a digit.
pub open spec fn bit(b: bool) -> int {
    if b {
        1
    } else {
        0
    }
}

/// More text and the address of a function.
pub open spec fn with_address(text: Seq<u8>, label: &str, a: PciAddress) -> Seq<u8> {
    with_number(
        with(with(text, label) + hex_byte(a.bus), ":") + hex_byte(a.device),
        ".",
        a.function as int,
    )
}

pub(crate) fn say<O: TextOutput>(output: &mut O, text: &str)
    ensures
        final(output).text() == with(old(output).text(), text),
{
    output.write_bytes(text.as_bytes());
}

fn say_number<O: TextOutput>(output: &mut O, label: &str, n: u64)
    ensures
        final(output).text() == with_number(old(output).text(), label, n as int),
{
    say(output, label);
    write_number(output, n);
}

fn say_hex<O: TextOutput>(output: &mut O, label: &str, n: u64)
    ensures
        final(output).text() == with_hex(old(output).text(), label, n),
{
    say(output, label);
    write_hex(output, n);
}

fn say_bit<O: TextOutput>(output: &mut O, label: &str, b: bool)
    ensures
        final(output).text() == with_number(old(output).text(), label, bit(b)),
{
    say_number(output, label, if b {
        1
    } else {
        0
    });
}

fn say_address<O: TextOutput>(output: &mut O, label: &str, a: PciAddress)
    ensures
        final(output).text() == with_address(old(output).text(), label, a),
{
    say(output, label);
    write_hex_byte(output, a.bus);
    say(output, ":");
    write_hex_byte(output, a.device);
    say_number(output, ".", a.function as u64);
}

/// The kind and the cause of an error.
pub open spec fn detail_of(error: ProbeError) -> (&'static str, &'static str) {
    match error {
        ProbeError::Acpi(e) => (
            "Acpi(",
            match e {
                AcpiError::Truncated => "Truncated",
                AcpiError::BadSignature => "BadSignature",
                AcpiError::BadLength => "BadLength",
                AcpiError::Checksum => "Checksum",
                AcpiError::UnsupportedPlatform => "UnsupportedPlatform",
                AcpiError::InvalidRange => "InvalidRange",
                AcpiError::Allocation => "Allocation",
            },
        ),
        ProbeError::Pci(e) => (
            "Pci(",
            match e {
                PciError::OutOfRange => "OutOfRange",
                PciError::Transport => "Transport",
                PciError::InvalidBar => "InvalidBar",
                PciError::NoXhci => "NoXhci",
                PciError::MultipleXhci => "MultipleXhci",
                PciError::UnsupportedPlatform => "UnsupportedPlatform",
                PciError::Allocation => "Allocation",
            },
        ),
        ProbeError::Mapping(e) => (
            "Map(",
            match e {
                MapError::InvalidRange => "InvalidRange",
                MapError::AlreadyMapped => "AlreadyMapped",
                MapError::NoMemory => "NoMemory",
                MapError::UnsupportedDepth => "UnsupportedDepth",
            },
        ),
        ProbeError::Dma(e) => (
            "Dma(",
            match e {
                DmaError::TooLarge => "TooLarge",
                DmaError::BadAlign => "BadAlign",
                DmaError::AddressLimit => "AddressLimit",
                DmaError::NoMemory => "NoMemory",
                DmaError::Allocation => "Allocation",
            },
        ),
    }
}

/// The kind and the cause of an error.
fn detail(error: &ProbeError) -> (r: (&'static str, &'static str))
    ensures
        r.0@ == detail_of(*error).0@,
        r.1@ == detail_of(*error).1@,
{
    match error {
        ProbeError::Acpi(e) => (
            "Acpi(",
            match e {
                AcpiError::Truncated => "Truncated",
                AcpiError::BadSignature => "BadSignature",
                AcpiError::BadLength => "BadLength",
                AcpiError::Checksum => "Checksum",
                AcpiError::UnsupportedPlatform => "UnsupportedPlatform",
                AcpiError::InvalidRange => "InvalidRange",
                AcpiError::Allocation => "Allocation",
            },
        ),
        ProbeError::Pci(e) => (
            "Pci(",
            match e {
                PciError::OutOfRange => "OutOfRange",
                PciError::Transport => "Transport",
                PciError::InvalidBar => "InvalidBar",
                PciError::NoXhci => "NoXhci",
                PciError::MultipleXhci => "MultipleXhci",
                PciError::UnsupportedPlatform => "UnsupportedPlatform",
                PciError::Allocation => "Allocation",
            },
        ),
        ProbeError::Mapping(e) => (
            "Map(",
            match e {
                MapError::InvalidRange => "InvalidRange",
                MapError::AlreadyMapped => "AlreadyMapped",
                MapError::NoMemory => "NoMemory",
                MapError::UnsupportedDepth => "UnsupportedDepth",
            },
        ),
        ProbeError::Dma(e) => (
            "Dma(",
            match e {
                DmaError::TooLarge => "TooLarge",
                DmaError::BadAlign => "BadAlign",
                DmaError::AddressLimit => "AddressLimit",
                DmaError::NoMemory => "NoMemory",
                DmaError::Allocation => "Allocation",
            },
        ),
    }
}

/// More text about an error.
pub open spec fn with_error(text: Seq<u8>, error: ProbeError) -> Seq<u8> {
    let (kind, cause) = detail_of(error);
    with(with(with(with(with(text, error.status_text()), " detail="), kind), cause), ")")
}

fn say_error<O: TextOutput>(output: &mut O, error: &ProbeError)
    ensures
        final(output).text() == with_error(old(output).text(), *error),
{
    let (kind, cause) = detail(error);
    say(output, error.status());
    say(output, " detail=");
    say(output, kind);
    say(output, cause);
    say(output, ")");
}

/// More text about the registers of a controller and what it says of itself.
pub open spec fn with_caps(text: Seq<u8>, bar: BarInfo, caps: XhciCaps) -> Seq<u8> {
    let t = with_hex(text, " bar_base=0x", bar.base);
    let t = with_hex(t, " bar_size=0x", bar.size);
    let t = with_number(t, " bar64=", bit(bar.is_64));
    let t = with_number(t, " slots=", caps.max_slots as int);
    let t = with_number(t, " ports=", caps.max_ports as int);
    let t = with_number(t, " ctx64=", bit(caps.context_64));
    let t = with_number(t, " addr64=", bit(caps.addr_64));
    let t = with_number(t, " scratch=", caps.scratchpad_count as int);
    let t = with_number(t, " legacy=", bit(caps.legacy_owned));
    let t = with_number(t, " usb2_off=", caps.usb2_bdf_range.0 as int);
    let t = with_number(t, " usb2_count=", caps.usb2_bdf_range.1 as int);
    let t = with_number(t, " usb3_off=", caps.usb3_bdf_range.0 as int);
    with_number(t, " usb3_count=", caps.usb3_bdf_range.1 as int)
}

fn say_caps<O: TextOutput>(output: &mut O, bar: &BarInfo, caps: &XhciCaps)
    ensures
        final(output).text() == with_caps(old(output).text(), *bar, *caps),
{
    say_hex(output, " bar_base=0x", bar.base);
    say_hex(output, " bar_size=0x", bar.size);
    say_bit(output, " bar64=", bar.is_64);
    say_number(output, " slots=", caps.max_slots as u64);
    say_number(output, " ports=", caps.max_ports as u64);
    say_bit(output, " ctx64=", caps.context_64);
    say_bit(output, " addr64=", caps.addr_64);
    say_number(output, " scratch=", caps.scratchpad_count as u64);
    say_bit(output, " legacy=", caps.legacy_owned);
    say_number(output, " usb2_off=", caps.usb2_bdf_range.0 as u64);
    say_number(output, " usb2_count=", caps.usb2_bdf_range.1 as u64);
    say_number(output, " usb3_off=", caps.usb3_bdf_range.0 as u64);
    say_number(output, " usb3_count=", caps.usb3_bdf_range.1 as u64);
}

/// The line about a controller that was looked at.
pub open spec fn candidate_line(text: Seq<u8>, s: CandidateSnapshot) -> Seq<u8> {
    let t = with_address(
        text,
        "[relay] phase=platform-probe-candidate status=ok bdf=",
        s.address,
    );
    with(with_caps(t, s.bar, s.caps), "\n")
}

/// Writes the line about a controller that was looked at.
pub fn report_candidate<O: TextOutput>(output: &mut O, snapshot: &CandidateSnapshot)
    ensures
        final(output).text() == candidate_line(old(output).text(), *snapshot),
{
    say_address(
        output,
        "[relay] phase=platform-probe-candidate status=ok bdf=",
        snapshot.address,
    );
    say_caps(output, &snapshot.bar, &snapshot.caps);
    say(output, "\n");
}

/// The line about a controller that could not be looked at.
pub open spec fn candidate_failure_line(
    text: Seq<u8>,
    error: ProbeError,
    a: PciAddress,
) -> Seq<u8> {
    let t = with(text, "[relay] phase=platform-probe-candidate status=");
    with(with_address(with_error(t, error), " bdf=", a), "\n")
}

/// Writes the line about a controller that could not be looked at.
pub fn report_candidate_failure<O: TextOutput>(
    output: &mut O,
    error: &ProbeError,
    address: PciAddress,
)
    ensures
        final(output).text() == candidate_failure_line(old(output).text(), *error, address),
{
    say(output, "[relay] phase=platform-probe-candidate status=");
    say_error(output, error);
    say_address(output, " bdf=", address);
    say(output, "\n");
}

/// The line about a machine that cannot be used.
pub open spec fn failure_line(text: Seq<u8>, error: ProbeError) -> Seq<u8> {
    with(with_error(with(text, "[relay] phase=platform-probe status="), error), "\n")
}

/// Writes the line about a machine that cannot be used.
pub fn report_failure<O: TextOutput>(output: &mut O, error: &ProbeError)
    ensures
        final(output).text() == failure_line(old(output).text(), *error),
{
    say(output, "[relay] phase=platform-probe status=");
    say_error(output, error);
    say(output, "\n");
}

/// More text: addresses from one on, with commas between them.
pub open spec fn with_addresses(text: Seq<u8>, all: Seq<PciAddress>, from: int) -> Seq<u8>
    decreases all.len() - from,
{
    if from < 0 || from >= all.len() {
        text
    } else {
        with_addresses(
            with_address(
                text,
                if from > 0 {
                    ","
                } else {
                    ""
                },
                all[from],
            ),
            all,
            from + 1,
        )
    }
}

fn say_addresses<O: TextOutput>(output: &mut O, all: &Vec<PciAddress>)
    ensures
        final(output).text() == with_addresses(old(output).text(), all@, 0),
{
    let ghost whole = with_addresses(output.text(), all@, 0);
    let mut i: usize = 0;
    while i < all.len()
        invariant
            i <= all@.len(),
            whole == with_addresses(old(output).text(), all@, 0),
            whole == with_addresses(output.text(), all@, i as int),
        decreases all@.len() - i,
    {
        say_address(
            output,
            if i > 0 {
                ","
            } else {
                ""
            },
            all[i],
        );
        i = i + 1;
    }
}

/// The line about a machine that can be used.
pub open spec fn platform_line(text: Seq<u8>, p: PlatformInfo) -> Seq<u8> {
    let t = with_hex(text, "[relay] phase=platform-probe status=ok mcfg_base=0x", p.region.base);
    let t = with_number(t, " bus=", p.region.bus_start as int);
    let t = with_number(t, "-", p.region.bus_end as int);
    let t = with_address(t, " xhci=", p.xhci);
    let t = with_caps(t, p.bar, p.caps);
    let t = with_number(t, " dmar=", bit(p.dmar));
    with(with_addresses(with(t, " xhci_all="), p.xhci_all@, 0), "\n")
}

/// Writes the line about a machine that can be used.
pub fn report_platform<O: TextOutput>(output: &mut O, platform: &PlatformInfo)
    ensures
        final(output).text() == platform_line(old(output).text(), *platform),
{
    say_hex(
        output,
        "[relay] phase=platform-probe status=ok mcfg_base=0x",
        platform.region.base,
    );
    say_number(output, " bus=", platform.region.bus_start as u64);
    say_number(output, "-", platform.region.bus_end as u64);
    say_address(output, " xhci=", platform.xhci);
    say_caps(output, &platform.bar, &platform.caps);
    say_bit(output, " dmar=", platform.dmar);
    say(output, " xhci_all=");
    say_addresses(output, &platform.xhci_all);
    say(output, "\n");
}

/// The lines about where the firmware tables are.
pub open spec fn rsdp_lines(text: Seq<u8>, rsdp: u64, region: Option<MemoryRegion>) -> Seq<u8> {
    let t = with(with_hex(text, "[relay] phase=platform-probe-debug rsdp=0x", rsdp), "\n");
    match region {
        None => with(t, RSDP_REGION_NONE),
        Some(region) => {
            let t = with_hex(
                t,
                "[relay] phase=platform-probe-debug rsdp_region start=0x",
                region.start,
            );
            let t = with_hex(t, " end=0x", region.end);
            let t = with_number(t, " kind=", region.kind as int);
            with(with_number(t, " reserved=", region.reserved as int), "\n")
        },
    }
}

/// Writes the lines about where the firmware tables are.
pub fn report_rsdp<O: TextOutput>(output: &mut O, rsdp: u64, region: Option<MemoryRegion>)
    ensures
        final(output).text() == rsdp_lines(old(output).text(), rsdp, region),
{
    say_hex(output, "[relay] phase=platform-probe-debug rsdp=0x", rsdp);
    say(output, "\n");
    match region {
        None => say(output, RSDP_REGION_NONE),
        Some(region) => {
            say_hex(
                output,
                "[relay] phase=platform-probe-debug rsdp_region start=0x",
                region.start,
            );
            say_hex(output, " end=0x", region.end);
            say_number(output, " kind=", region.kind as u64);
            say_number(output, " reserved=", region.reserved as u64);
            say(output, "\n");
        },
    }
}

/// What the kernel says, and whether it goes on, when it knows what the machine has.
pub open spec fn probe_lines(text: Seq<u8>, r: Result<PlatformInfo, ProbeError>) -> Seq<u8> {
    match r {
        Err(error) => failure_line(text, error),
        Ok(platform) => with(
            with(
                platform_line(candidate_lines(text, platform.snapshots@, 0), platform),
                KERNEL_ENTRY_OK,
            ),
            KERNEL_RUNTIME_OK,
        ),
    }
}

/// The lines about controllers from one on.
pub open spec fn candidate_lines(text: Seq<u8>, all: Seq<CandidateSnapshot>, from: int) -> Seq<u8>
    decreases all.len() - from,
{
    if from < 0 || from >= all.len() {
        text
    } else {
        candidate_lines(candidate_line(text, all[from]), all, from + 1)
    }
}

/// Writes what the kernel says when it knows what the machine has.
pub fn report_probe<O: TextOutput>(output: &mut O, r: &Result<PlatformInfo, ProbeError>)
    ensures
        final(output).text() == probe_lines(old(output).text(), *r),
{
    match r {
        Err(error) => report_failure(output, error),
        Ok(platform) => {
            let ghost whole = candidate_lines(output.text(), platform.snapshots@, 0);
            let mut i: usize = 0;
            while i < platform.snapshots.len()
                invariant
                    i <= platform.snapshots@.len(),
                    whole == candidate_lines(old(output).text(), platform.snapshots@, 0),
                    whole == candidate_lines(output.text(), platform.snapshots@, i as int),
                decreases platform.snapshots@.len() - i,
            {
                report_candidate(output, &platform.snapshots[i]);
                i = i + 1;
            }
            report_platform(output, platform);
            say(output, KERNEL_ENTRY_OK);
            say(output, KERNEL_RUNTIME_OK);
        },
    }
}

} // verus!
