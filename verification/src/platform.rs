//! Finding out what the machine has: where its devices are configured, which USB controllers
//! there are, and which of them to use.
use vstd::prelude::*;

use crate::acpi::{
    described_region, describes_dmar, dmar_present, has_tables, parse_mcfg, AcpiError, McfgRegion,
    PhysicalMemory, BUS_BYTES,
};
use crate::bytes::{get_u32, le32, put_u32, to_le32};
use crate::dma::DmaError;
use crate::heap::Heap;
use crate::mmio::MapError;
use crate::pci::{
    addressable, all_controllers, caps_of, decode_xhci_caps_at, ecam_address, find_xhci_controllers,
    in_order, notes_functions, prefer_pch_primary, preferred, probe_step, probe_xhci_bar,
    register_place, standard_capability, BarInfo, PciAddress, PciConfig, PciError, XhciCaps,
    REGISTER_COMMAND,
};
use crate::xhci::XhciError;

verus! {

/// Why the machine cannot be used.
#[derive(Clone, Copy, Debug, PartialEq, Eq, Structural)]
pub enum ProbeError {
    Acpi(AcpiError),
    Pci(PciError),
    Mapping(MapError),
    Dma(DmaError),
}

impl ProbeError {
    /// What is said of an error.
    pub open spec fn status_text(self) -> &'static str {
        match self {
            ProbeError::Acpi(_) => "bad-acpi",
            ProbeError::Pci(PciError::NoXhci) => "unsupported-platform",
            ProbeError::Pci(PciError::MultipleXhci) => "unsupported-platform",
            ProbeError::Pci(PciError::UnsupportedPlatform) => "unsupported-platform",
            ProbeError::Pci(_) => "bad-pci",
            ProbeError::Mapping(_) => "map-failed",
            ProbeError::Dma(_) => "dma-failed",
        }
    }

    /// What is said of an error.
    pub fn status(&self) -> (text: &'static str)
        ensures
            text@ == self.status_text()@,
    {
        match self {
            ProbeError::Acpi(_) => "bad-acpi",
            ProbeError::Pci(PciError::NoXhci) => "unsupported-platform",
            ProbeError::Pci(PciError::MultipleXhci) => "unsupported-platform",
            ProbeError::Pci(PciError::UnsupportedPlatform) => "unsupported-platform",
            ProbeError::Pci(_) => "bad-pci",
            ProbeError::Mapping(_) => "map-failed",
            ProbeError::Dma(_) => "dma-failed",
        }
    }
}

/// The error of a controller that could not be let at memory.
pub open spec fn startup_error(error: ProbeError) -> XhciError {
    match error {
        ProbeError::Mapping(e) => XhciError::Mapping(e),
        ProbeError::Dma(e) => XhciError::Dma(e),
        ProbeError::Pci(_) => XhciError::InvalidRegister,
        ProbeError::Acpi(_) => XhciError::InvalidRegister,
    }
}

/// The error of a controller that could not be let at memory.
pub fn bus_mastering_error(error: ProbeError) -> (e: XhciError)
    ensures
        e == startup_error(error),
{
    match error {
        ProbeError::Mapping(e) => XhciError::Mapping(e),
        ProbeError::Dma(e) => XhciError::Dma(e),
        ProbeError::Pci(_) => XhciError::InvalidRegister,
        ProbeError::Acpi(_) => XhciError::InvalidRegister,
    }
}

/// The error of a read that needs a mapping.
pub fn read_error(error: MapError) -> (e: crate::acpi::MemoryError)
    ensures
        e == (match error {
            MapError::InvalidRange => crate::acpi::MemoryError::OutOfRange,
            _ => crate::acpi::MemoryError::Transport,
        }),
{
    match error {
        MapError::InvalidRange => crate::acpi::MemoryError::OutOfRange,
        _ => crate::acpi::MemoryError::Transport,
    }
}

/// Whether there are bytes to be read at a physical address: none where none are asked for. They
/// must not reach beyond the last address.
pub fn bytes_to_read(physical: u64, len: usize) -> (r: Result<bool, crate::acpi::MemoryError>)
    ensures
        r == (if len == 0 {
            Ok(false)
        } else if physical + len > u64::MAX {
            Err(crate::acpi::MemoryError::Overflow)
        } else {
            Ok(true)
        }),
{
    if len == 0 {
        return Ok(false);
    }
    match physical.checked_add(len as u64) {
        Some(_) => Ok(true),
        None => Err(crate::acpi::MemoryError::Overflow),
    }
}

/// Bytes of configuration space in a region.
pub open spec fn ecam_bytes(region: McfgRegion) -> int {
    (region.bus_end - region.bus_start + 1) * BUS_BYTES
}

/// Where the devices are configured, and how many bytes to map there.
pub fn locate_ecam<M: PhysicalMemory>(memory: &M, rsdp: u64) -> (r: Result<
    (McfgRegion, usize),
    ProbeError,
>)
    ensures
        match r {
            Ok((region, len)) => described_region(*memory, rsdp) == Ok::<_, AcpiError>(region)
                && len == ecam_bytes(region),
            Err(ProbeError::Acpi(AcpiError::Allocation)) => has_tables(*memory, rsdp),
            Err(e) => match described_region(*memory, rsdp) {
                Ok(region) => e == ProbeError::Mapping(MapError::InvalidRange) && ecam_bytes(region)
                    > usize::MAX,
                Err(a) => e == ProbeError::Acpi(a),
            },
        },
{
    proof {
        crate::acpi::law_region_can_be_mapped(*memory, rsdp);
    }
    ecam_of(parse_mcfg(memory, rsdp))
}

/// How many bytes to map for a region, or why there is none.
pub fn ecam_of(region: Result<McfgRegion, AcpiError>) -> (r: Result<
    (McfgRegion, usize),
    ProbeError,
>)
    requires
        region matches Ok(region) ==> region.bus_start <= region.bus_end,
    ensures
        r == (match region {
            Err(e) => Err(ProbeError::Acpi(e)),
            Ok(region) => if ecam_bytes(region) > usize::MAX {
                Err(ProbeError::Mapping(MapError::InvalidRange))
            } else {
                Ok((region, ecam_bytes(region) as usize))
            },
        }),
{
    let region = match region {
        Ok(region) => region,
        Err(error) => return Err(ProbeError::Acpi(error)),
    };
    let buses: u64 = region.bus_end as u64 - region.bus_start as u64 + 1;
    let bytes: u64 = buses * BUS_BYTES;
    if bytes > usize::MAX as u64 {
        return Err(ProbeError::Mapping(MapError::InvalidRange));
    }
    Ok((region, bytes as usize))
}

/// The configuration space where it is mapped.
#[derive(Clone, Copy, Debug, PartialEq, Eq, Structural)]
pub struct EcamWindow {
    pub mapped: u64,
    pub region: McfgRegion,
}

/// Where a register of a function appears.
pub open spec fn register_at(window: EcamWindow, address: PciAddress, offset: u16) -> Result<
    u64,
    PciError,
> {
    let place = register_place(window.region, address, offset);
    let seen = window.mapped + (place - window.region.base);
    if !addressable(window.region, address, offset) || place > u64::MAX || seen > u64::MAX {
        Err(PciError::OutOfRange)
    } else {
        Ok(seen as u64)
    }
}

impl EcamWindow {
    /// Where a register of a function appears.
    pub fn register(&self, address: PciAddress, offset: u16) -> (r: Result<u64, PciError>)
        ensures
            r == register_at(*self, address, offset),
    {
        let place: u64 = ecam_address(&self.region, address, offset)?;
        match self.mapped.checked_add(place - self.region.base) {
            Some(seen) => Ok(seen),
            None => Err(PciError::OutOfRange),
        }
    }

    /// Where the command register of a function appears, which lets it at memory.
    pub fn enable_bus_mastering(&self, address: PciAddress) -> (r: Result<u64, ProbeError>)
        ensures
            r == (match register_at(*self, address, REGISTER_COMMAND) {
                Ok(seen) => Ok(seen),
                Err(e) => Err(ProbeError::Pci(e)),
            }),
    {
        match self.register(address, REGISTER_COMMAND) {
            Ok(seen) => Ok(seen),
            Err(error) => Err(ProbeError::Pci(error)),
        }
    }
}

/// The command that lets a function at memory; all else is kept. The upper half of the register
/// is not part of it: writing there would clear what was noted.
pub fn with_bus_master(register: u32) -> (command: u16)
    ensures
        command == register % 0x1_0000 - register / 4 % 2 * 4 + 4,
{
    let command: u32 = register % 0x1_0000;
    if command / 4 % 2 == 1 {
        command as u16
    } else {
        (command + 4) as u16
    }
}

/// A USB controller that was looked at.
#[derive(Clone, Copy, Debug, PartialEq, Eq)]
pub struct CandidateSnapshot {
    pub address: PciAddress,
    pub bar: BarInfo,
    pub caps: XhciCaps,
    pub xecp: u16,
}

/// What the machine has.
pub struct PlatformInfo {
    pub region: McfgRegion,
    pub xhci: PciAddress,
    pub xhci_all: Vec<PciAddress>,
    pub bar: BarInfo,
    pub caps: XhciCaps,
    pub xecp: u16,
    pub dmar: bool,
    pub snapshots: Vec<CandidateSnapshot>,
}

/// The USB controllers, of which the first have been looked at.
pub struct Survey {
    pub candidates: Vec<PciAddress>,
    pub snapshots: Vec<CandidateSnapshot>,
    pub heap: Heap,
}

/// The extended capabilities are read from at most so many bytes.
pub const MAX_EXTENDED_BYTES: usize = 1024;

/// Where the extended capabilities start, in words.
pub open spec fn extended_start(header: Seq<u8>) -> u16 {
    (le32(header, 16) / 0x1_0000) as u16
}

/// The bytes to read for the extended capabilities: where they start, and how many.
pub open spec fn extended_window(header: Seq<u8>, bar_len: usize) -> Option<(int, int)> {
    let start = extended_start(header) * 4;
    if start > bar_len {
        None
    } else if bar_len - start < MAX_EXTENDED_BYTES {
        Some((start, bar_len - start))
    } else {
        Some((start, MAX_EXTENDED_BYTES as int))
    }
}

/// The bytes of words, the rest filled with zeros.
pub open spec fn word_bytes(words: Seq<u32>, len: nat) -> Seq<u8> {
    Seq::new(
        len,
        |i: int|
            if i / 4 < words.len() {
                to_le32(words[i / 4])[i % 4]
            } else {
                0u8
            },
    )
}

/// A candidate that was looked at: its registers, its header, and its extended capabilities.
pub open spec fn snapshot_of(
    address: PciAddress,
    bar: BarInfo,
    header: Seq<u8>,
    ext: Seq<u8>,
) -> CandidateSnapshot {
    let xecp = extended_start(header);
    CandidateSnapshot {
        address,
        bar,
        caps: caps_of(header, standard_capability(xecp * 4, ext)),
        xecp,
    }
}

/// The snapshot of a controller.
pub open spec fn snapshot_for(
    snapshots: Seq<CandidateSnapshot>,
    address: PciAddress,
    from: int,
) -> Option<
    CandidateSnapshot,
>
    decreases snapshots.len() - from,
{
    if from < 0 || from >= snapshots.len() {
        None
    } else if snapshots[from].address == address {
        Some(snapshots[from])
    } else {
        snapshot_for(snapshots, address, from + 1)
    }
}

/// Where the registers of a candidate are, and how many bytes to map there.
pub open spec fn mapping_of(bar: Result<BarInfo, PciError>) -> Result<(BarInfo, usize), ProbeError> {
    match bar {
        Err(e) => Err(ProbeError::Pci(e)),
        Ok(bar) => if bar.size > usize::MAX {
            Err(ProbeError::Mapping(MapError::InvalidRange))
        } else {
            Ok((bar, bar.size as usize))
        },
    }
}

/// Where the registers of a candidate are, and how many bytes to map there.
pub fn registers_to_map(bar: Result<BarInfo, PciError>) -> (r: Result<(BarInfo, usize), ProbeError>)
    ensures
        r == mapping_of(bar),
{
    match bar {
        Ok(bar) => {
            if bar.size > usize::MAX as u64 {
                return Err(ProbeError::Mapping(MapError::InvalidRange));
            }
            Ok((bar, bar.size as usize))
        },
        Err(error) => Err(ProbeError::Pci(error)),
    }
}

/// Finds out where the registers of a candidate are, if there is room for a snapshot; else nothing
/// is asked of the candidate.
pub fn probe_registers<C: PciConfig>(config: &mut C, candidate: PciAddress, room: bool) -> (r:
    Result<(BarInfo, usize), ProbeError>)
    ensures
        ({
            let step = probe_step(*old(config), candidate);
            if room {
                *final(config) == step.config && r == mapping_of(step.result)
            } else {
                *final(config) == *old(config) && r == Err::<(BarInfo, usize), _>(
                    ProbeError::Pci(PciError::Allocation),
                )
            }
        }),
{
    if !room {
        return Err(ProbeError::Pci(PciError::Allocation));
    }
    registers_to_map(probe_xhci_bar(config, candidate))
}

impl Survey {
    /// Each snapshot is of the candidate in its place.
    pub open spec fn wf(self) -> bool {
        &&& self.candidates@.len() > 0
        &&& self.snapshots@.len() <= self.candidates@.len()
        &&& forall|i: int|
            0 <= i < self.snapshots@.len() ==> (#[trigger] self.snapshots@[i]).address
                == self.candidates@[i]
    }

    /// Finds the USB controllers. There must be one. Fails also where there are functions
    /// and memory is short.
    pub fn begin<C: PciConfig>(config: &C) -> (r: Result<Survey, ProbeError>)
        ensures
            match r {
                Ok(survey) => {
                    &&& survey.wf()
                    &&& all_controllers(*config) == Ok::<_, PciError>(survey.candidates@)
                    &&& in_order(survey.candidates@)
                    &&& survey.snapshots@.len() == 0
                },
                Err(e) => e == ProbeError::Pci(PciError::Allocation) && notes_functions(*config) || (
                match all_controllers(*config) {
                    Ok(found) => found.len() == 0 && e == ProbeError::Pci(PciError::NoXhci),
                    Err(p) => e == ProbeError::Pci(p),
                }),
            },
    {
        Survey::over(find_xhci_controllers(config))
    }

    /// A survey of the USB controllers that were found. There must be one.
    pub fn over(found: Result<Vec<PciAddress>, PciError>) -> (r: Result<Survey, ProbeError>)
        ensures
            match found {
                Err(e) => r is Err && r->Err_0 == ProbeError::Pci(e),
                Ok(found) => if found@.len() == 0 {
                    r is Err && r->Err_0 == ProbeError::Pci(PciError::NoXhci)
                } else {
                    &&& r is Ok
                    &&& r->Ok_0.wf()
                    &&& r->Ok_0.candidates@ == found@
                    &&& r->Ok_0.snapshots@.len() == 0
                },
            },
    {
        let candidates = match found {
            Ok(candidates) => candidates,
            Err(error) => return Err(ProbeError::Pci(error)),
        };
        if candidates.len() == 0 {
            return Err(ProbeError::Pci(PciError::NoXhci));
        }
        Ok(Survey { candidates, snapshots: Vec::new(), heap: Heap::new() })
    }

    /// Memory was refused for the last candidate.
    pub open spec fn refused(&self) -> bool {
        self.heap.refused()
    }

    /// The next candidate, if there is one that has not been looked at.
    pub fn next_candidate(&self) -> (r: Option<PciAddress>)
        ensures
            r == (if self.snapshots@.len() < self.candidates@.len() {
                Some(self.candidates@[self.snapshots@.len() as int])
            } else {
                None
            }),
    {
        if self.snapshots.len() < self.candidates.len() {
            Some(self.candidates[self.snapshots.len()])
        } else {
            None
        }
    }

    /// Finds out where the registers of a candidate are, so that they can be mapped. It fails for
    /// want of memory exactly where memory for the snapshot is refused; then nothing was asked of
    /// the candidate.
    pub fn probe_candidate<C: PciConfig>(&mut self, config: &mut C, candidate: PciAddress) -> (r:
        Result<(BarInfo, usize), ProbeError>)
        requires
            old(self).wf(),
        ensures
            final(self).wf(),
            final(self).candidates@ == old(self).candidates@,
            final(self).snapshots@ == old(self).snapshots@,
            ({
                let step = probe_step(*old(config), candidate);
                if final(self).refused() {
                    r == Err::<(BarInfo, usize), _>(ProbeError::Pci(PciError::Allocation))
                        && *final(config) == *old(config)
                } else {
                    *final(config) == step.config && r == mapping_of(step.result)
                }
            }),
    {
        self.heap = Heap::new();
        let room = self.heap.reserve(&mut self.snapshots, 1);
        probe_registers(config, candidate, room)
    }

    /// Notes what a candidate says of itself: `ext` are the bytes of its extended capabilities,
    /// where the header says that they are; none if there was no memory for them.
    pub fn note(
        &mut self,
        candidate: PciAddress,
        bar: BarInfo,
        header: &[u8; 32],
        ext: Option<Vec<u8>>,
    ) -> (r: Result<(), ProbeError>)
        requires
            old(self).wf(),
            old(self).snapshots@.len() < old(self).candidates@.len(),
            candidate == old(self).candidates@[old(self).snapshots@.len() as int],
        ensures
            final(self).wf(),
            final(self).candidates@ == old(self).candidates@,
            final(self).refused() == old(self).refused(),
            match ext {
                Some(ext) => r is Ok && final(self).snapshots@ == old(self).snapshots@.push(
                    snapshot_of(candidate, bar, header@, ext@),
                ),
                None => r == Err::<(), _>(ProbeError::Mapping(MapError::NoMemory))
                    && final(self).snapshots@ == old(self).snapshots@,
            },
    {
        let ext = match ext {
            Some(ext) => ext,
            None => return Err(ProbeError::Mapping(MapError::NoMemory)),
        };
        let xecp: u16 = (get_u32(header, 16) / 0x1_0000) as u16;
        let caps = decode_xhci_caps_at(header, xecp as u64 * 4, &ext);
        self.snapshots.push(CandidateSnapshot { address: candidate, bar, caps, xecp });
        Ok(())
    }

    /// Notes what a candidate says of itself: `words` are those of its extended capabilities,
    /// where the header says that they are. Fails exactly where memory for `len` bytes is refused; no
    /// bytes take no memory.
    pub fn record(
        &mut self,
        candidate: PciAddress,
        bar: BarInfo,
        header: &[u8; 32],
        words: &[u32],
        len: usize,
    ) -> (r: Result<(), ProbeError>)
        requires
            old(self).wf(),
            old(self).snapshots@.len() < old(self).candidates@.len(),
            candidate == old(self).candidates@[old(self).snapshots@.len() as int],
        ensures
            final(self).wf(),
            final(self).candidates@ == old(self).candidates@,
            if final(self).refused() {
                &&& len > 0
                &&& r == Err::<(), _>(ProbeError::Mapping(MapError::NoMemory))
                &&& final(self).snapshots@ == old(self).snapshots@
            } else {
                &&& r is Ok
                &&& final(self).snapshots@ == old(self).snapshots@.push(
                    snapshot_of(candidate, bar, header@, word_bytes(words@, len as nat)),
                )
            },
    {
        self.heap = Heap::new();
        let ext = bytes_of(words, len, &mut self.heap);
        self.note(candidate, bar, header, ext)
    }

    /// Picks the controller to use, once all have been looked at. Fails also where there are tables
    /// and memory is short.
    pub fn finish<M: PhysicalMemory>(self, region: McfgRegion, memory: &M, rsdp: u64) -> (r: Result<
        PlatformInfo,
        ProbeError,
    >)
        requires
            self.wf(),
            self.snapshots@.len() == self.candidates@.len(),
        ensures
            chosen(self, region, describes_dmar(*memory, rsdp), r) || has_tables(*memory, rsdp)
                && chosen(self, region, Err(AcpiError::Allocation), r),
    {
        let dmar = dmar_present(memory, rsdp);
        self.settle(region, dmar)
    }

    /// Picks the controller to use, once all have been looked at and it is known whether there is
    /// remapping hardware, or why it is not.
    pub fn settle(self, region: McfgRegion, dmar: Result<bool, AcpiError>) -> (r: Result<
        PlatformInfo,
        ProbeError,
    >)
        requires
            self.wf(),
            self.snapshots@.len() == self.candidates@.len(),
        ensures
            chosen(self, region, dmar, r),
    {
        proof {
            lemma_preferred_is_there(self.candidates@);
            lemma_snapshot_is_there(
                self.candidates@,
                self.snapshots@,
                preferred(self.candidates@)->0,
                0,
            );
        }
        let xhci = match prefer_pch_primary(self.candidates.as_slice()) {
            Some(xhci) => xhci,
            None => return Err(ProbeError::Pci(PciError::NoXhci)),
        };
        let primary = match find_snapshot(&self.snapshots, xhci) {
            Some(primary) => primary,
            None => return Err(ProbeError::Pci(PciError::NoXhci)),
        };
        let dmar: bool = match dmar {
            Ok(dmar) => dmar,
            Err(error) => return Err(ProbeError::Acpi(error)),
        };
        Ok(
            PlatformInfo {
                region,
                xhci,
                xhci_all: self.candidates,
                bar: primary.bar,
                caps: primary.caps,
                xecp: primary.xecp,
                dmar,
                snapshots: self.snapshots,
            },
        )
    }
}

/// What a survey leads to: the preferred controller with what its snapshot says, unless it is not
/// known whether there is remapping hardware.
pub open spec fn chosen(
    survey: Survey,
    region: McfgRegion,
    dmar: Result<bool, AcpiError>,
    r: Result<PlatformInfo, ProbeError>,
) -> bool {
    let xhci = preferred(survey.candidates@)->0;
    let primary = snapshot_for(survey.snapshots@, xhci, 0);
    match dmar {
        Err(e) => r is Err && r->Err_0 == ProbeError::Acpi(e),
        Ok(dmar) => {
            &&& r is Ok
            &&& primary is Some
            &&& ({
                let platform = r->Ok_0;
                &&& platform.dmar == dmar
                &&& platform.region == region
                &&& platform.xhci == xhci
                &&& platform.xhci_all@ == survey.candidates@
                &&& platform.snapshots@ == survey.snapshots@
                &&& platform.bar == primary->0.bar
                &&& platform.caps == primary->0.caps
                &&& platform.xecp == primary->0.xecp
            })
        },
    }
}

/// The bytes to read for the extended capabilities.
pub fn snapshot_window(header: &[u8; 32], bar_len: usize) -> (r: Result<(usize, usize), ProbeError>)
    ensures
        match extended_window(header@, bar_len) {
            Some((start, window)) => r matches Ok((s, w)) && s == start && w == window,
            None => r == Err::<(usize, usize), _>(ProbeError::Mapping(MapError::InvalidRange)),
        },
{
    let start: usize = (get_u32(header, 16) / 0x1_0000) as usize * 4;
    if start > bar_len {
        return Err(ProbeError::Mapping(MapError::InvalidRange));
    }
    let remaining: usize = bar_len - start;
    if remaining < MAX_EXTENDED_BYTES {
        Ok((start, remaining))
    } else {
        Ok((start, MAX_EXTENDED_BYTES))
    }
}

/// The bytes that are read lie in the registers.
pub proof fn law_capabilities_are_read_inside(header: Seq<u8>, bar_len: usize)
    ensures
        extended_window(header, bar_len) matches Some((start, window)) ==> 0 <= start && 0 <= window
            && start + window <= bar_len && window <= MAX_EXTENDED_BYTES,
{
}

/// The header of a controller, from its first words.
pub fn header_of(words: &[u32; 8]) -> (header: [u8; 32])
    ensures
        header@ == word_bytes(words@, 32),
{
    let mut header = [0u8; 32];
    let mut i: usize = 0;
    while i < 8
        invariant
            i <= 8,
            forall|k: int| 0 <= k < 4 * i ==> #[trigger] header@[k] == to_le32(words@[k / 4])[k % 4],
        decreases 8 - i,
    {
        let ghost before = header@;
        put_u32(&mut header, i * 4, words[i]);
        assert forall|k: int| 0 <= k < 4 * (i + 1) implies #[trigger] header@[k] == to_le32(
            words@[k / 4],
        )[k % 4] by {
            if k < 4 * i {
                assert(header@[k] == before[k]);
            } else {
                assert(k / 4 == i && k % 4 == k - 4 * i);
            }
        }
        i = i + 1;
    }
    assert(header@ =~= word_bytes(words@, 32));
    header
}

/// The bytes of words, the rest filled with zeros, behind what a buffer holds; none without a
/// buffer.
pub fn put_words(words: &[u32], len: usize, buffer: Option<Vec<u8>>) -> (r: Option<Vec<u8>>)
    ensures
        match buffer {
            Some(buffer) => r is Some && r->0@ == buffer@ + word_bytes(words@, len as nat),
            None => r is None,
        },
{
    let mut bytes: Vec<u8> = match buffer {
        Some(buffer) => buffer,
        None => return None,
    };
    let ghost before = bytes@;
    let ghost all = word_bytes(words@, len as nat);
    assert(before + all.take(0) =~= before);
    let mut i: usize = 0;
    while i < len
        invariant
            i <= len,
            all == word_bytes(words@, len as nat),
            bytes@ == before + all.take(i as int),
        decreases len - i,
    {
        let byte: u8 = if i / 4 < words.len() {
            byte_of(words[i / 4], i % 4)
        } else {
            0
        };
        bytes.push(byte);
        assert(bytes@ =~= before + all.take(i + 1));
        i = i + 1;
    }
    assert(all.take(i as int) =~= all);
    Some(bytes)
}

/// The bytes of words, the rest filled with zeros. Fails exactly where the heap refuses to hold
/// them; no bytes take no memory.
fn bytes_of(words: &[u32], len: usize, heap: &mut Heap) -> (r: Option<Vec<u8>>)
    requires
        !old(heap).refused(),
    ensures
        match r {
            Some(bytes) => !final(heap).refused() && bytes@ == word_bytes(words@, len as nat),
            None => final(heap).refused() && len > 0,
        },
{
    let mut bytes: Vec<u8> = Vec::new();
    let buffer = if len > 0 && !heap.reserve(&mut bytes, len) {
        None
    } else {
        Some(bytes)
    };
    let r = put_words(words, len, buffer);
    assert(Seq::<u8>::empty() + word_bytes(words@, len as nat) =~= word_bytes(words@, len as nat));
    r
}

/// A byte of a word.
fn byte_of(word: u32, at: usize) -> (byte: u8)
    requires
        at < 4,
    ensures
        byte == to_le32(word)[at as int],
{
    if at == 0 {
        (word % 256) as u8
    } else if at == 1 {
        (word / 256 % 256) as u8
    } else if at == 2 {
        (word / 0x1_0000 % 256) as u8
    } else {
        (word / 0x100_0000) as u8
    }
}

/// The snapshot of a controller.
fn find_snapshot(snapshots: &Vec<CandidateSnapshot>, address: PciAddress) -> (r: Option<
    CandidateSnapshot,
>)
    ensures
        r == snapshot_for(snapshots@, address, 0),
{
    let mut i: usize = 0;
    while i < snapshots.len()
        invariant
            i <= snapshots@.len(),
            snapshot_for(snapshots@, address, 0) == snapshot_for(snapshots@, address, i as int),
        decreases snapshots@.len() - i,
    {
        if snapshots[i].address == address {
            return Some(snapshots[i]);
        }
        i = i + 1;
    }
    None
}

/// The controller to use is one of the candidates.
proof fn lemma_preferred_is_there(candidates: Seq<PciAddress>)
    requires
        candidates.len() > 0,
    ensures
        preferred(candidates) is Some,
        exists|i: int| 0 <= i < candidates.len() && #[trigger] candidates[i] == preferred(candidates)->0,
{
    lemma_first_pch(candidates, 0);
    assert(candidates[0] == candidates[0]);
}

proof fn lemma_first_pch(candidates: Seq<PciAddress>, from: int)
    requires
        0 <= from <= candidates.len(),
    ensures
        crate::pci::first_pch(candidates, from) matches Some(address) ==> exists|i: int|
            0 <= i < candidates.len() && #[trigger] candidates[i] == address,
    decreases candidates.len() - from,
{
    if from < candidates.len() && !crate::pci::is_pch(candidates[from]) {
        lemma_first_pch(candidates, from + 1);
    }
}

/// A candidate that was looked at has a snapshot.
proof fn lemma_snapshot_is_there(
    candidates: Seq<PciAddress>,
    snapshots: Seq<CandidateSnapshot>,
    address: PciAddress,
    from: int,
)
    requires
        0 <= from <= snapshots.len(),
        snapshots.len() == candidates.len(),
        forall|i: int|
            0 <= i < snapshots.len() ==> (#[trigger] snapshots[i]).address == candidates[i],
        exists|i: int| from <= i < candidates.len() && #[trigger] candidates[i] == address,
    ensures
        snapshot_for(snapshots, address, from) is Some,
    decreases snapshots.len() - from,
{
    if from < snapshots.len() && snapshots[from].address != address {
        lemma_snapshot_is_there(candidates, snapshots, address, from + 1);
    }
}

} // verus!
