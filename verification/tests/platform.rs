use relay_core::acpi::{AcpiError, McfgRegion, MemoryError, PhysicalMemory};
use relay_core::console::TextOutput;
use relay_core::dma::DmaError;
use relay_core::memory::MemoryRegion;
use relay_core::mmio::MapError;
use relay_core::pci::{BarInfo, PciAddress, PciConfig, PciError};
use relay_core::platform::{
    bus_mastering_error, bytes_to_read, ecam_of, header_of, locate_ecam, probe_registers, put_words, read_error,
    registers_to_map, snapshot_window, with_bus_master, EcamWindow, PlatformInfo, ProbeError, Survey,
};
use relay_core::report::{
    report_candidate_failure, report_failure, report_probe, report_rsdp,
};
use relay_core::xhci::XhciError;
use std::collections::BTreeMap;

struct Recorder(Vec<u8>);

impl TextOutput for Recorder {
    fn write_bytes(&mut self, bytes: &[u8]) {
        self.0.extend_from_slice(bytes);
    }
}

fn text(write: impl FnOnce(&mut Recorder)) -> String {
    let mut output = Recorder(Vec::new());
    write(&mut output);
    String::from_utf8(output.0).unwrap()
}

fn address(device: u8, function: u8) -> PciAddress {
    PciAddress {
        segment: 0,
        bus: 0,
        device,
        function,
    }
}

/// Firmware tables in memory.
struct Tables(BTreeMap<u64, Vec<u8>>);

impl PhysicalMemory for Tables {
    fn read_exact(&self, physical: u64, output: &mut [u8]) -> Result<(), MemoryError> {
        let table = self.0.get(&physical).ok_or(MemoryError::OutOfRange)?;
        let part = table.get(..output.len()).ok_or(MemoryError::OutOfRange)?;
        output.copy_from_slice(part);
        Ok(())
    }
}

fn balance(bytes: &mut [u8], at: usize) {
    bytes[at] = 0;
    let sum = bytes.iter().fold(0u8, |sum, byte| sum.wrapping_add(*byte));
    bytes[at] = 0u8.wrapping_sub(sum);
}

fn table(signature: &[u8], body: &[u8]) -> Vec<u8> {
    let mut bytes = vec![0; 36];
    bytes[0..4].copy_from_slice(signature);
    bytes.extend_from_slice(body);
    let len = bytes.len() as u32;
    bytes[4..8].copy_from_slice(&len.to_le_bytes());
    balance(&mut bytes, 9);
    bytes
}

fn firmware() -> Tables {
    let mut rsdp = vec![0; 36];
    rsdp[0..8].copy_from_slice(b"RSD PTR ");
    rsdp[15] = 2;
    rsdp[20] = 36;
    rsdp[24..32].copy_from_slice(&0x2000u64.to_le_bytes());
    balance(&mut rsdp[0..20], 8);
    balance(&mut rsdp, 32);
    let mut mcfg = vec![0; 24];
    mcfg[8..16].copy_from_slice(&0xE000_0000u64.to_le_bytes());
    mcfg[19] = 3;
    let entries = [0x3000u64.to_le_bytes(), 0x4000u64.to_le_bytes()].concat();
    Tables(BTreeMap::from([
        (0x1000, rsdp),
        (0x2000, table(b"XSDT", &entries)),
        (0x3000, table(b"MCFG", &mcfg)),
        (0x4000, table(b"DMAR", &[1; 12])),
    ]))
}

/// Configuration registers; the base address registers answer a write of all ones with a mask.
struct Registers {
    values: BTreeMap<(u8, u8, u16), u32>,
    masks: BTreeMap<(u8, u8, u16), u32>,
    sized: BTreeMap<(u8, u8, u16), bool>,
}

impl Registers {
    fn new() -> Self {
        Registers {
            values: BTreeMap::new(),
            masks: BTreeMap::new(),
            sized: BTreeMap::new(),
        }
    }

    fn controller(&mut self, device: u8, high: u32) {
        for (offset, value) in [
            (0x00, 0x1234_5678),
            (0x04, 0x6),
            (0x08, 0x0C03_3000),
            (0x0C, 0),
            (0x10, 0x4),
            (0x14, high),
        ] {
            self.values.insert((device, 0, offset), value);
        }
        self.masks.insert((device, 0, 0x10), 0xFFFF_0000);
        self.masks.insert((device, 0, 0x14), 0xFFFF_FFFF);
    }
}

impl PciConfig for Registers {
    fn read_u32(&self, address: PciAddress, offset: u16) -> Result<u32, PciError> {
        let key = (address.device, address.function, offset);
        if address.bus != 0 {
            return Ok(0xFFFF_FFFF);
        }
        if self.sized.get(&key) == Some(&true) {
            return Ok(self.masks[&key]);
        }
        Ok(*self.values.get(&key).unwrap_or(&0xFFFF_FFFF))
    }

    fn write_u32(&mut self, address: PciAddress, offset: u16, value: u32) -> Result<(), PciError> {
        let key = (address.device, address.function, offset);
        let sizing = value == 0xFFFF_FFFF && self.masks.contains_key(&key);
        self.sized.insert(key, sizing);
        if !sizing {
            self.values.insert(key, value);
        }
        Ok(())
    }
}

fn header(xecp: u32) -> [u8; 32] {
    header_of(&[0x0110_0020, 0x0400_0010, 0, 0, xecp << 16 | 5, 0, 0, 0])
}

fn surveyed() -> PlatformInfo {
    let memory = firmware();
    let (region, len) = locate_ecam(&memory, 0x1000).unwrap();
    assert_eq!(len, 4 << 20);
    let mut config = Registers::new();
    config.controller(5, 9);
    config.controller(0x14, 7);
    let mut survey = Survey::begin(&config).unwrap();
    while let Some(candidate) = survey.next_candidate() {
        let (bar, bar_len) = survey.probe_candidate(&mut config, candidate).unwrap();
        assert_eq!(bar_len, 0x1_0000);
        let header = header(0x40);
        assert_eq!(snapshot_window(&header, bar_len).unwrap(), (0x100, 1024));
        let words = [0x0200_0402, 0, 0x0000_0201, 0, 0x0000_0002];
        survey
            .record(candidate, bar, &header, &words, 1024)
            .unwrap();
    }
    survey.finish(region, &memory, 0x1000).unwrap()
}

#[test]
fn the_controller_of_the_chipset_is_used() {
    let platform = surveyed();
    assert_eq!(platform.xhci, address(0x14, 0));
    assert_eq!(platform.xhci_all, [address(5, 0), address(0x14, 0)]);
    assert_eq!(
        platform.bar,
        BarInfo {
            base: 0x7_0000_0000,
            size: 0x1_0000,
            is_64: true
        }
    );
    assert_eq!(platform.caps.usb2_bdf_range, (1, 2));
    assert_eq!(platform.caps.max_slots, 16);
    assert_eq!(platform.xecp, 0x40);
    assert!(platform.dmar);
    assert_eq!(platform.snapshots.len(), 2);
}

#[test]
fn the_report_has_a_line_for_each_controller() {
    let lines = text(|output| report_probe(output, &Ok(surveyed())));
    let caps = "bar_size=0x10000 bar64=1 slots=16 ports=4 ctx64=1 addr64=1 scratch=0 legacy=0 \
                usb2_off=1 usb2_count=2 usb3_off=0 usb3_count=0";
    assert_eq!(
        lines,
        format!(
            "[relay] phase=platform-probe-candidate status=ok bdf=00:05.0 \
             bar_base=0x900000000 {caps}\n\
             [relay] phase=platform-probe-candidate status=ok bdf=00:14.0 \
             bar_base=0x700000000 {caps}\n\
             [relay] phase=platform-probe status=ok mcfg_base=0xe0000000 bus=0-3 xhci=00:14.0 \
             bar_base=0x700000000 {caps} dmar=1 xhci_all=00:05.0,00:14.0\n\
             [relay] phase=kernel-entry status=ok\n\
             [relay] phase=kernel-runtime status=ok\n"
        )
    );
}

#[test]
fn failures_are_reported_in_one_line() {
    let error = ProbeError::Pci(PciError::NoXhci);
    assert_eq!(
        text(|output| report_failure(output, &error)),
        "[relay] phase=platform-probe status=unsupported-platform detail=Pci(NoXhci)\n"
    );
    let error = ProbeError::Mapping(MapError::AlreadyMapped);
    assert_eq!(
        text(|output| report_candidate_failure(output, &error, address(31, 7))),
        "[relay] phase=platform-probe-candidate status=map-failed detail=Map(AlreadyMapped) \
         bdf=00:1f.7\n"
    );
    for (error, status) in [
        (ProbeError::Acpi(AcpiError::Checksum), "bad-acpi"),
        (ProbeError::Pci(PciError::InvalidBar), "bad-pci"),
        (ProbeError::Pci(PciError::MultipleXhci), "unsupported-platform"),
        (ProbeError::Dma(DmaError::TooLarge), "dma-failed"),
    ] {
        assert_eq!(error.status(), status);
    }
    let region = MemoryRegion {
        start: 0xE0000,
        end: 0x100000,
        kind: 4,
        reserved: 0,
    };
    assert_eq!(
        text(|output| report_rsdp(output, 0xE1230, Some(region))),
        "[relay] phase=platform-probe-debug rsdp=0xe1230\n\
         [relay] phase=platform-probe-debug rsdp_region start=0xe0000 end=0x100000 kind=4 \
         reserved=0\n"
    );
    assert_eq!(
        text(|output| report_rsdp(output, 0, None)),
        "[relay] phase=platform-probe-debug rsdp=0x0\n\
         [relay] phase=platform-probe-debug rsdp_region=none\n"
    );
}

#[test]
fn machines_without_a_controller_are_refused() {
    assert_eq!(
        Survey::begin(&Registers::new()).err(),
        Some(ProbeError::Pci(PciError::NoXhci))
    );
    assert_eq!(
        locate_ecam(&Tables(BTreeMap::new()), 0x1000).err(),
        Some(ProbeError::Acpi(AcpiError::Truncated))
    );
    let mut config = Registers::new();
    config.controller(5, 0);
    let mut survey = Survey::begin(&config).unwrap();
    assert_eq!(
        survey.probe_candidate(&mut config, address(5, 0)),
        Err(ProbeError::Pci(PciError::InvalidBar))
    );
    assert_eq!(
        snapshot_window(&header(0x41), 0x100),
        Err(ProbeError::Mapping(MapError::InvalidRange))
    );
    assert_eq!(snapshot_window(&header(0x40), 0x108), Ok((0x100, 8)));
}

#[test]
fn configuration_registers_are_found_in_the_window() {
    let window = EcamWindow {
        mapped: 0xFFFF_C000_0000_0000,
        region: McfgRegion {
            base: 0xE000_0000,
            segment: 0,
            bus_start: 0,
            bus_end: 3,
        },
    };
    assert_eq!(
        window.register(address(5, 1), 0x10),
        Ok(0xFFFF_C000_0000_0000 + (5 << 15) + (1 << 12) + 0x10)
    );
    assert_eq!(
        window.enable_bus_mastering(address(5, 0)),
        Ok(0xFFFF_C000_0000_0000 + (5 << 15) + 4)
    );
    assert_eq!(
        window.enable_bus_mastering(address(32, 0)),
        Err(ProbeError::Pci(PciError::OutOfRange))
    );
    assert_eq!(with_bus_master(0xFFFF_0002), 6);
    assert_eq!(with_bus_master(0x0010_0407), 0x0407);
    assert_eq!(
        bus_mastering_error(ProbeError::Pci(PciError::OutOfRange)),
        XhciError::InvalidRegister
    );
    assert_eq!(
        bus_mastering_error(ProbeError::Dma(DmaError::NoMemory)),
        XhciError::Dma(DmaError::NoMemory)
    );
    assert_eq!(read_error(MapError::InvalidRange), MemoryError::OutOfRange);
    assert_eq!(read_error(MapError::NoMemory), MemoryError::Transport);
}

#[test]
fn registers_are_mapped_as_the_bar_says() {
    let bar = BarInfo {
        base: 0xC000_0000,
        size: 0x1_0000,
        is_64: true,
    };
    assert_eq!(registers_to_map(Ok(bar)), Ok((bar, 0x1_0000)));
    assert_eq!(
        registers_to_map(Err(PciError::InvalidBar)),
        Err(ProbeError::Pci(PciError::InvalidBar))
    );
}

#[test]
fn words_are_put_where_there_is_room() {
    let words = [0x0403_0201, 0x0807_0605];
    assert_eq!(put_words(&words, 6, Some(Vec::new())), Some(vec![1, 2, 3, 4, 5, 6]));
    assert_eq!(
        put_words(&words[..1], 6, Some(vec![9])),
        Some(vec![9, 1, 2, 3, 4, 0, 0])
    );
    assert_eq!(put_words(&words, 0, Some(Vec::new())), Some(Vec::new()));
    assert_eq!(put_words(&words, 6, None), None);
}

#[test]
fn without_room_nothing_is_asked_or_noted() {
    let mut config = Registers::new();
    config.controller(5, 9);
    let mut survey = Survey::begin(&config).unwrap();
    let candidate = survey.next_candidate().unwrap();
    assert_eq!(
        probe_registers(&mut config, candidate, false),
        Err(ProbeError::Pci(PciError::Allocation))
    );
    assert!(config.sized.is_empty());
    let (bar, len) = probe_registers(&mut config, candidate, true).unwrap();
    assert_eq!((bar.size, len), (0x1_0000, 0x1_0000));
    assert_eq!(
        survey.note(candidate, bar, &header(0), None),
        Err(ProbeError::Mapping(MapError::NoMemory))
    );
    assert_eq!(survey.next_candidate(), Some(candidate));
    assert_eq!(survey.note(candidate, bar, &header(0), Some(Vec::new())), Ok(()));
    assert_eq!(survey.next_candidate(), None);
}

#[test]
fn outcomes_lead_to_a_survey_and_from_it() {
    assert_eq!(
        Survey::over(Err(PciError::Allocation)).err(),
        Some(ProbeError::Pci(PciError::Allocation))
    );
    assert_eq!(
        Survey::over(Ok(Vec::new())).err(),
        Some(ProbeError::Pci(PciError::NoXhci))
    );
    let region = locate_ecam(&firmware(), 0x1000).unwrap().0;
    assert_eq!(ecam_of(Ok(region)), Ok((region, 4 << 20)));
    assert_eq!(
        ecam_of(Err(AcpiError::Allocation)),
        Err(ProbeError::Acpi(AcpiError::Allocation))
    );
    for dmar in [Ok(true), Ok(false), Err(AcpiError::Allocation)] {
        let mut config = Registers::new();
        config.controller(5, 9);
        let mut survey = Survey::over(Ok(vec![address(5, 0)])).unwrap();
        let (bar, _) = survey.probe_candidate(&mut config, address(5, 0)).unwrap();
        assert_eq!(survey.record(address(5, 0), bar, &header(0), &[], 0), Ok(()));
        let settled = survey.settle(region, dmar).map(|platform| platform.dmar);
        assert_eq!(settled, dmar.map_err(ProbeError::Acpi));
    }
}

#[test]
fn reads_stay_within_the_address_space() {
    assert_eq!(bytes_to_read(u64::MAX, 0), Ok(false));
    assert_eq!(bytes_to_read(u64::MAX - 4, 4), Ok(true));
    assert_eq!(bytes_to_read(u64::MAX - 4, 5), Err(MemoryError::Overflow));
}
