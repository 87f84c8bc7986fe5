//! Firmware tables: where the configuration space of the PCI devices is.
use vstd::prelude::*;

use crate::bytes::{get_u16, get_u32, get_u64, le16, le32, le64};
use crate::heap::Heap;

verus! {

/// Why physical memory could not be read.
#[derive(Clone, Copy, Debug, PartialEq, Eq, Structural)]
pub enum MemoryError {
    OutOfRange,
    Overflow,
    Transport,
}

/// Memory at physical addresses.
pub trait PhysicalMemory {
    /// The bytes at an address, or why they cannot be read.
    closed spec fn content(&self, physical: u64, len: nat) -> Result<Seq<u8>, MemoryError> {
        arbitrary()
    }

    fn read_exact(&self, physical: u64, output: &mut [u8]) -> (r: Result<(), MemoryError>)
        ensures
            final(output)@.len() == old(output)@.len(),
            match self.content(physical, old(output)@.len()) {
                Ok(bytes) => r == Ok::<(), MemoryError>(()) && final(output)@ == bytes,
                Err(e) => r == Err::<(), MemoryError>(e),
            },
    ;
}

/// Why the tables cannot be used.
#[derive(Clone, Copy, Debug, PartialEq, Eq, Structural)]
pub enum AcpiError {
    Truncated,
    BadSignature,
    BadLength,
    Checksum,
    UnsupportedPlatform,
    InvalidRange,
    Allocation,
}

/// Where the configuration space of a range of buses is.
#[derive(Clone, Copy, Debug, PartialEq, Eq, Structural)]
pub struct McfgRegion {
    pub base: u64,
    pub segment: u16,
    pub bus_start: u8,
    pub bus_end: u8,
}

pub const MAX_TABLE_BYTES: usize = 65536;

pub const MAX_MAPPABLE_PHYSICAL: u64 = 0x7FFF_FFFF_FFFF;

pub const PAGE_BYTES: u64 = 4096;

/// Bytes of configuration space that a bus takes.
pub const BUS_BYTES: u64 = 0x10_0000;

/// Bytes in the header of a table, and in the root pointer.
pub const HEADER_BYTES: usize = 36;

/// The bytes `RSD PTR ` as a number.
pub const RSDP_SIGNATURE: u64 = 0x2052_5450_2044_5352;

/// The bytes `XSDT` as a number.
pub const XSDT_SIGNATURE: u32 = 0x5444_5358;

/// The bytes `RSDT` as a number.
pub const RSDT_SIGNATURE: u32 = 0x5444_5352;

/// The bytes `MCFG` as a number.
pub const MCFG_SIGNATURE: u32 = 0x4746_434d;

/// The bytes `DMAR` as a number.
pub const DMAR_SIGNATURE: u32 = 0x5241_4d44;

/// The sum of some bytes.
pub open spec fn total(bytes: Seq<u8>) -> int
    decreases bytes.len(),
{
    if bytes.len() == 0 {
        0
    } else {
        total(bytes.drop_last()) + bytes.last()
    }
}

/// The bytes add up to a multiple of 256.
pub open spec fn balanced(bytes: Seq<u8>) -> bool {
    total(bytes) % 256 == 0
}

/// The header of a table.
pub open spec fn header_at<M: PhysicalMemory>(memory: M, physical: u64) -> Result<
    Seq<u8>,
    AcpiError,
> {
    match memory.content(physical, HEADER_BYTES as nat) {
        Ok(bytes) => Ok(bytes),
        Err(_) => Err(AcpiError::Truncated),
    }
}

/// The length that a header states, if a table can have it.
pub open spec fn stated_length(header: Seq<u8>) -> Result<int, AcpiError> {
    let length = le32(header, 4) as int;
    if HEADER_BYTES <= length <= MAX_TABLE_BYTES {
        Ok(length)
    } else {
        Err(AcpiError::BadLength)
    }
}

/// A table, header included.
pub open spec fn table_at<M: PhysicalMemory>(memory: M, physical: u64) -> Result<
    Seq<u8>,
    AcpiError,
> {
    match header_at(memory, physical) {
        Err(e) => Err(e),
        Ok(header) => match stated_length(header) {
            Err(e) => Err(e),
            Ok(length) => match memory.content(physical, length as nat) {
                Ok(bytes) => Ok(bytes),
                Err(_) => Err(AcpiError::Truncated),
            },
        },
    }
}

/// The signature of a table.
pub open spec fn signature_at<M: PhysicalMemory>(memory: M, physical: u64) -> Result<
    u32,
    AcpiError,
> {
    match header_at(memory, physical) {
        Err(e) => Err(e),
        Ok(header) => Ok(le32(header, 0)),
    }
}

/// The addresses that a root table of some length holds, `stride` bytes each.
pub open spec fn addresses(body: Seq<u8>, length: int, stride: int) -> Seq<u64> {
    Seq::new(
        ((length - HEADER_BYTES) / stride) as nat,
        |i: int|
            if stride == 8 {
                le64(body, HEADER_BYTES + 8 * i)
            } else {
                le32(body, HEADER_BYTES + 4 * i) as u64
            },
    )
}

/// The addresses in a root table.
pub open spec fn entries_at<M: PhysicalMemory>(memory: M, physical: u64, stride: int) -> Result<
    Seq<u64>,
    AcpiError,
> {
    match header_at(memory, physical) {
        Err(e) => Err(e),
        Ok(header) => match stated_length(header) {
            Err(e) => Err(e),
            Ok(length) => if (length - HEADER_BYTES) % stride != 0 {
                Err(AcpiError::BadLength)
            } else {
                match table_at(memory, physical) {
                    Err(e) => Err(e),
                    Ok(body) => if !balanced(body) {
                        Err(AcpiError::Checksum)
                    } else {
                        Ok(addresses(body, length, stride))
                    },
                }
            },
        },
    }
}

/// The addresses in a root table with the right signature.
pub open spec fn signed_entries<M: PhysicalMemory>(
    memory: M,
    physical: u64,
    signature: u32,
    stride: int,
) -> Result<Seq<u64>, AcpiError> {
    match signature_at(memory, physical) {
        Err(e) => Err(e),
        Ok(found) => if found != signature {
            Err(AcpiError::BadSignature)
        } else {
            entries_at(memory, physical, stride)
        },
    }
}

/// A root table: where it is, its signature, and the bytes of an address in it.
pub struct Root {
    pub physical: u64,
    pub signature: u32,
    pub stride: int,
}

/// The root table that the root pointer leads to: the one with 64-bit addresses from revision 2
/// on, else the one with 32-bit addresses.
pub open spec fn root_of<M: PhysicalMemory>(memory: M, rsdp: u64) -> Result<Root, AcpiError> {
    if rsdp == 0 {
        Err(AcpiError::InvalidRange)
    } else {
        match header_at(memory, rsdp) {
            Err(e) => Err(e),
            Ok(pointer) => if le64(pointer, 0) != RSDP_SIGNATURE {
                Err(AcpiError::BadSignature)
            } else if !balanced(pointer.subrange(0, 20)) {
                Err(AcpiError::Checksum)
            } else if pointer[15] >= 2 {
                if !balanced(pointer) {
                    Err(AcpiError::Checksum)
                } else {
                    Ok(Root { physical: le64(pointer, 24), signature: XSDT_SIGNATURE, stride: 8 })
                }
            } else {
                Ok(
                    Root {
                        physical: le32(pointer, 16) as u64,
                        signature: RSDT_SIGNATURE,
                        stride: 4,
                    },
                )
            },
        }
    }
}

/// The addresses of the tables that the root pointer leads to.
pub open spec fn tables<M: PhysicalMemory>(memory: M, rsdp: u64) -> Result<Seq<u64>, AcpiError> {
    match root_of(memory, rsdp) {
        Err(e) => Err(e),
        Ok(root) => signed_entries(memory, root.physical, root.signature, root.stride),
    }
}

/// A table has a header that states a length: reading it takes memory.
pub open spec fn has_table<M: PhysicalMemory>(memory: M, physical: u64) -> bool {
    header_at(memory, physical) is Ok && stated_length(header_at(memory, physical)->Ok_0) is Ok
}

/// A root table has a header that states a length, of whole addresses: reading it takes memory.
pub open spec fn has_root<M: PhysicalMemory>(memory: M, physical: u64, stride: int) -> bool {
    &&& has_table(memory, physical)
    &&& (stated_length(header_at(memory, physical)->Ok_0)->Ok_0 - HEADER_BYTES) % stride == 0
}

/// The root pointer leads to a table with the right signature and a proper length: reading the
/// tables takes memory.
pub open spec fn has_tables<M: PhysicalMemory>(memory: M, rsdp: u64) -> bool {
    let root = root_of(memory, rsdp);
    &&& root is Ok
    &&& has_root(memory, root->Ok_0.physical, root->Ok_0.stride)
    &&& signature_at(memory, root->Ok_0.physical) == Ok::<u32, AcpiError>(root->Ok_0.signature)
}

/// The region that a table with one entry describes.
pub open spec fn region_of(body: Seq<u8>) -> Result<McfgRegion, AcpiError> {
    let base = le64(body, 44);
    let segment = le16(body, 52);
    let bus_start = body[54];
    let bus_end = body[55];
    if le32(body, 4) != 60 || body.len() != 60 {
        Err(AcpiError::UnsupportedPlatform)
    } else if !balanced(body) {
        Err(AcpiError::Checksum)
    } else if segment != 0 {
        Err(AcpiError::UnsupportedPlatform)
    } else if bus_start > bus_end {
        Err(AcpiError::InvalidRange)
    } else if base == 0 || base % PAGE_BYTES != 0 {
        Err(AcpiError::InvalidRange)
    } else if base + (bus_end - bus_start + 1) * BUS_BYTES > MAX_MAPPABLE_PHYSICAL + 1 {
        Err(AcpiError::InvalidRange)
    } else {
        Ok(McfgRegion { base, segment, bus_start, bus_end })
    }
}

/// The region that the table at an address describes.
pub open spec fn region_at<M: PhysicalMemory>(memory: M, physical: u64) -> Result<
    McfgRegion,
    AcpiError,
> {
    match table_at(memory, physical) {
        Err(e) => Err(e),
        Ok(body) => region_of(body),
    }
}

/// Looks for the one table that describes the region, from `from` on.
pub open spec fn find_region<M: PhysicalMemory>(
    memory: M,
    tables: Seq<u64>,
    from: int,
    found: Option<McfgRegion>,
) -> Result<McfgRegion, AcpiError>
    decreases tables.len() - from,
{
    if from >= tables.len() {
        match found {
            Some(region) => Ok(region),
            None => Err(AcpiError::UnsupportedPlatform),
        }
    } else {
        match signature_at(memory, tables[from]) {
            Err(e) => Err(e),
            Ok(signature) => if signature != MCFG_SIGNATURE {
                find_region(memory, tables, from + 1, found)
            } else if found is Some {
                Err(AcpiError::UnsupportedPlatform)
            } else {
                match region_at(memory, tables[from]) {
                    Err(e) => Err(e),
                    Ok(region) => find_region(memory, tables, from + 1, Some(region)),
                }
            },
        }
    }
}

/// Looks for a table of remapping hardware, from `from` on.
pub open spec fn find_dmar<M: PhysicalMemory>(memory: M, tables: Seq<u64>, from: int) -> Result<
    bool,
    AcpiError,
>
    decreases tables.len() - from,
{
    if from >= tables.len() {
        Ok(false)
    } else {
        match signature_at(memory, tables[from]) {
            Err(e) => Err(e),
            Ok(signature) => if signature != DMAR_SIGNATURE {
                find_dmar(memory, tables, from + 1)
            } else {
                match table_at(memory, tables[from]) {
                    Err(e) => Err(e),
                    Ok(_) => Ok(true),
                }
            },
        }
    }
}

/// The region that the tables describe.
pub open spec fn described_region<M: PhysicalMemory>(memory: M, rsdp: u64) -> Result<
    McfgRegion,
    AcpiError,
> {
    match tables(memory, rsdp) {
        Err(e) => Err(e),
        Ok(found) => find_region(memory, found, 0, None),
    }
}

/// Whether the tables describe remapping hardware.
pub open spec fn describes_dmar<M: PhysicalMemory>(
    memory: M,
    rsdp: u64,
) -> Result<bool, AcpiError> {
    match tables(memory, rsdp) {
        Err(e) => Err(e),
        Ok(found) => find_dmar(memory, found, 0),
    }
}

/// Whether bytes add up to a multiple of 256.
fn checksum_ok(bytes: &[u8]) -> (r: bool)
    ensures
        r == balanced(bytes@),
{
    let mut sum: u8 = 0;
    let mut i: usize = 0;
    while i < bytes.len()
        invariant
            i <= bytes@.len(),
            sum == total(bytes@.take(i as int)) % 256,
        decreases bytes@.len() - i,
    {
        assert(bytes@.take(i + 1).drop_last() =~= bytes@.take(i as int));
        sum = sum.wrapping_add(bytes[i]);
        i = i + 1;
    }
    assert(bytes@.take(bytes@.len() as int) =~= bytes@);
    sum == 0
}

/// Reads the header of a table.
fn read_exact_36<M: PhysicalMemory>(memory: &M, physical: u64) -> (r: Result<
    [u8; HEADER_BYTES],
    AcpiError,
>)
    ensures
        match header_at(*memory, physical) {
            Ok(header) => r is Ok && r->Ok_0@ == header,
            Err(e) => r is Err && r->Err_0 == e,
        },
{
    let mut header = [0u8; HEADER_BYTES];
    match memory.read_exact(physical, &mut header) {
        Ok(()) => Ok(header),
        Err(_) => Err(AcpiError::Truncated),
    }
}

/// Reads the signature of a table.
fn sdt_signature<M: PhysicalMemory>(memory: &M, physical: u64) -> (r: Result<u32, AcpiError>)
    ensures
        r == signature_at(*memory, physical),
{
    let header = read_exact_36(memory, physical)?;
    Ok(get_u32(&header, 0))
}

/// Reads `length` bytes into an empty buffer, where it has room for them.
pub fn fill_table<M: PhysicalMemory>(
    memory: &M,
    physical: u64,
    length: usize,
    buffer: Vec<u8>,
    room: bool,
) -> (r: Result<Vec<u8>, AcpiError>)
    requires
        buffer@.len() == 0,
    ensures
        match r {
            Ok(bytes) => room && memory.content(physical, length as nat) == Ok::<_, MemoryError>(
                bytes@,
            ) && bytes@.len() == length,
            Err(e) => if room {
                e == AcpiError::Truncated && memory.content(physical, length as nat) is Err
            } else {
                e == AcpiError::Allocation
            },
        },
{
    if !room {
        return Err(AcpiError::Allocation);
    }
    let mut bytes = buffer;
    bytes.resize(length, 0);
    match memory.read_exact(physical, bytes.as_mut_slice()) {
        Ok(()) => Ok(bytes),
        Err(_) => Err(AcpiError::Truncated),
    }
}

/// Reads a table, unless the heap refuses to hold it.
fn read_table<M: PhysicalMemory>(memory: &M, physical: u64, heap: &mut Heap) -> (r: Result<
    Vec<u8>,
    AcpiError,
>)
    requires
        !old(heap).refused(),
    ensures
        match r {
            Ok(bytes) => !final(heap).refused() && table_at(*memory, physical) == Ok::<
                Seq<u8>,
                AcpiError,
            >(bytes@) && HEADER_BYTES <= bytes@.len() <= MAX_TABLE_BYTES && header_at(
                *memory,
                physical,
            ) is Ok && bytes@.len() == le32(header_at(*memory, physical)->Ok_0, 4),
            Err(e) => if final(heap).refused() {
                e == AcpiError::Allocation && has_table(*memory, physical)
            } else {
                table_at(*memory, physical) == Err::<Seq<u8>, AcpiError>(e)
            },
        },
{
    let header = read_exact_36(memory, physical)?;
    let length: u32 = get_u32(&header, 4);
    if length < HEADER_BYTES as u32 || length > MAX_TABLE_BYTES as u32 {
        return Err(AcpiError::BadLength);
    }
    let mut bytes: Vec<u8> = Vec::new();
    let room = heap.reserve(&mut bytes, length as usize);
    fill_table(memory, physical, length as usize, bytes, room)
}

/// The addresses in a root table, from its bytes, in an empty buffer, where it has room for them.
pub fn list_entries(body: &[u8], stride: usize, buffer: Vec<u64>, room: bool) -> (r: Result<
    Vec<u64>,
    AcpiError,
>)
    requires
        stride == 4 || stride == 8,
        HEADER_BYTES <= body@.len() <= MAX_TABLE_BYTES,
        (body@.len() - HEADER_BYTES) % (stride as int) == 0,
        buffer@.len() == 0,
    ensures
        match r {
            Ok(entries) => room && entries@ == addresses(
                body@,
                body@.len() as int,
                stride as int,
            ),
            Err(e) => !room && e == AcpiError::Allocation,
        },
{
    if !room {
        return Err(AcpiError::Allocation);
    }
    let mut entries = buffer;
    let count: usize = (body.len() - HEADER_BYTES) / stride;
    let ghost all = addresses(body@, body@.len() as int, stride as int);
    assert(entries@ =~= all.take(0));
    let mut i: usize = 0;
    while i < count
        invariant
            i <= count,
            stride == 4 || stride == 8,
            HEADER_BYTES + stride * count == body@.len(),
            body@.len() <= MAX_TABLE_BYTES,
            all == addresses(body@, body@.len() as int, stride as int),
            all.len() == count,
            entries@ == all.take(i as int),
        decreases count - i,
    {
        let entry: u64 = if stride == 8 {
            get_u64(body, HEADER_BYTES + 8 * i)
        } else {
            get_u32(body, HEADER_BYTES + 4 * i) as u64
        };
        entries.push(entry);
        assert(entries@ =~= all.take(i + 1));
        i = i + 1;
    }
    assert(all.take(count as int) =~= all);
    Ok(entries)
}

/// Reads the addresses in a root table, unless the heap refuses to hold them.
fn sdt_entries<M: PhysicalMemory>(memory: &M, physical: u64, stride: usize, heap: &mut Heap) -> (r:
    Result<Vec<u64>, AcpiError>)
    requires
        stride == 4 || stride == 8,
        !old(heap).refused(),
    ensures
        match r {
            Ok(entries) => !final(heap).refused() && entries_at(
                *memory,
                physical,
                stride as int,
            ) == Ok::<Seq<u64>, AcpiError>(entries@),
            Err(e) => if final(heap).refused() {
                e == AcpiError::Allocation && has_root(*memory, physical, stride as int)
            } else {
                entries_at(*memory, physical, stride as int) == Err::<Seq<u64>, AcpiError>(e)
            },
        },
{
    let header = read_exact_36(memory, physical)?;
    let length: u32 = get_u32(&header, 4);
    if length < HEADER_BYTES as u32 || length > MAX_TABLE_BYTES as u32 {
        return Err(AcpiError::BadLength);
    }
    if (length as usize - HEADER_BYTES) % stride != 0 {
        return Err(AcpiError::BadLength);
    }
    let body = read_table(memory, physical, heap)?;
    if !checksum_ok(body.as_slice()) {
        return Err(AcpiError::Checksum);
    }
    let mut entries: Vec<u64> = Vec::new();
    let room = heap.reserve(&mut entries, (length as usize - HEADER_BYTES) / stride);
    list_entries(body.as_slice(), stride, entries, room)
}

/// Reads the addresses in a root table with the right signature, unless the heap refuses to hold
/// them.
fn read_signed_entries<M: PhysicalMemory>(
    memory: &M,
    physical: u64,
    signature: u32,
    stride: usize,
    heap: &mut Heap,
) -> (r: Result<Vec<u64>, AcpiError>)
    requires
        stride == 4 || stride == 8,
        !old(heap).refused(),
    ensures
        match r {
            Ok(entries) => !final(heap).refused() && signed_entries(
                *memory,
                physical,
                signature,
                stride as int,
            ) == Ok::<Seq<u64>, AcpiError>(entries@),
            Err(e) => if final(heap).refused() {
                &&& e == AcpiError::Allocation
                &&& has_root(*memory, physical, stride as int)
                &&& signature_at(*memory, physical) == Ok::<u32, AcpiError>(signature)
            } else {
                signed_entries(*memory, physical, signature, stride as int) == Err::<
                    Seq<u64>,
                    AcpiError,
                >(e)
            },
        },
{
    if sdt_signature(memory, physical)? != signature {
        return Err(AcpiError::BadSignature);
    }
    sdt_entries(memory, physical, stride, heap)
}

/// Reads the addresses of the tables that the root pointer leads to, unless the heap refuses to hold
/// them.
fn root_entries<M: PhysicalMemory>(memory: &M, rsdp_phys: u64, heap: &mut Heap) -> (r: Result<
    Vec<u64>,
    AcpiError,
>)
    requires
        !old(heap).refused(),
    ensures
        match r {
            Ok(entries) => !final(heap).refused() && tables(*memory, rsdp_phys) == Ok::<
                Seq<u64>,
                AcpiError,
            >(entries@) && has_tables(*memory, rsdp_phys),
            Err(e) => if final(heap).refused() {
                e == AcpiError::Allocation && has_tables(*memory, rsdp_phys)
            } else {
                tables(*memory, rsdp_phys) == Err::<Seq<u64>, AcpiError>(e)
            },
        },
{
    if rsdp_phys == 0 {
        return Err(AcpiError::InvalidRange);
    }
    let rsdp = read_exact_36(memory, rsdp_phys)?;
    if get_u64(&rsdp, 0) != RSDP_SIGNATURE {
        return Err(AcpiError::BadSignature);
    }
    if !checksum_ok(vstd::slice::slice_subrange(&rsdp, 0, 20)) {
        return Err(AcpiError::Checksum);
    }
    if rsdp[15] >= 2 {
        if !checksum_ok(&rsdp) {
            return Err(AcpiError::Checksum);
        }
        read_signed_entries(memory, get_u64(&rsdp, 24), XSDT_SIGNATURE, 8, heap)
    } else {
        read_signed_entries(memory, get_u32(&rsdp, 16) as u64, RSDT_SIGNATURE, 4, heap)
    }
}

/// The region that a table with one entry describes.
pub fn read_region(body: &[u8]) -> (r: Result<McfgRegion, AcpiError>)
    requires
        body@.len() >= HEADER_BYTES,
    ensures
        r == region_of(body@),
{
    if get_u32(body, 4) != 60 || body.len() != 60 {
        return Err(AcpiError::UnsupportedPlatform);
    }
    if !checksum_ok(body) {
        return Err(AcpiError::Checksum);
    }
    let base: u64 = get_u64(body, 44);
    let segment: u16 = get_u16(body, 52);
    let bus_start: u8 = body[54];
    let bus_end: u8 = body[55];
    if segment != 0 {
        return Err(AcpiError::UnsupportedPlatform);
    }
    if bus_start > bus_end {
        return Err(AcpiError::InvalidRange);
    }
    if base == 0 || base % PAGE_BYTES != 0 {
        return Err(AcpiError::InvalidRange);
    }
    let window: u64 = (bus_end as u64 - bus_start as u64 + 1) * BUS_BYTES;
    if base > MAX_MAPPABLE_PHYSICAL + 1 - window {
        return Err(AcpiError::InvalidRange);
    }
    Ok(McfgRegion { base, segment, bus_start, bus_end })
}

/// Reads the region that the table at an address describes, unless the heap refuses to hold it.
fn validate_mcfg<M: PhysicalMemory>(memory: &M, physical: u64, heap: &mut Heap) -> (r: Result<
    McfgRegion,
    AcpiError,
>)
    requires
        !old(heap).refused(),
    ensures
        if final(heap).refused() {
            r == Err::<McfgRegion, AcpiError>(AcpiError::Allocation)
        } else {
            r == region_at(*memory, physical)
        },
{
    let body = read_table(memory, physical, heap)?;
    read_region(body.as_slice())
}

/// The region where the configuration space of the PCI devices is. There must be exactly one
/// table for it, with one entry. Fails also where there are tables and memory is short.
pub fn parse_mcfg<M: PhysicalMemory>(memory: &M, rsdp_phys: u64) -> (r: Result<
    McfgRegion,
    AcpiError,
>)
    ensures
        r == Err::<McfgRegion, AcpiError>(AcpiError::Allocation) && has_tables(*memory, rsdp_phys)
            || r == described_region(*memory, rsdp_phys),
{
    parse_mcfg_in(memory, rsdp_phys, &mut Heap::new())
}

/// The region where the configuration space of the PCI devices is, with tables in memory from a
/// heap. It fails for want of memory exactly where the heap refuses to hold one.
pub fn parse_mcfg_in<M: PhysicalMemory>(memory: &M, rsdp_phys: u64, heap: &mut Heap) -> (r: Result<
    McfgRegion,
    AcpiError,
>)
    requires
        !old(heap).refused(),
    ensures
        if final(heap).refused() {
            r == Err::<McfgRegion, AcpiError>(AcpiError::Allocation) && has_tables(
                *memory,
                rsdp_phys,
            )
        } else {
            r == described_region(*memory, rsdp_phys)
        },
{
    let entries = root_entries(memory, rsdp_phys, heap)?;
    let mut found: Option<McfgRegion> = None;
    let mut i: usize = 0;
    while i < entries.len()
        invariant
            i <= entries@.len(),
            !heap.refused(),
            has_tables(*memory, rsdp_phys),
            described_region(*memory, rsdp_phys) == find_region(
                *memory,
                entries@,
                i as int,
                found,
            ),
        decreases entries@.len() - i,
    {
        if sdt_signature(memory, entries[i])? == MCFG_SIGNATURE {
            if found.is_some() {
                return Err(AcpiError::UnsupportedPlatform);
            }
            found = Some(validate_mcfg(memory, entries[i], heap)?);
        }
        i = i + 1;
    }
    match found {
        Some(region) => Ok(region),
        None => Err(AcpiError::UnsupportedPlatform),
    }
}

/// Whether there is remapping hardware. Fails also where there are tables and memory is short.
pub fn dmar_present<M: PhysicalMemory>(memory: &M, rsdp_phys: u64) -> (r: Result<bool, AcpiError>)
    ensures
        r == Err::<bool, AcpiError>(AcpiError::Allocation) && has_tables(*memory, rsdp_phys) || r
            == describes_dmar(*memory, rsdp_phys),
{
    dmar_present_in(memory, rsdp_phys, &mut Heap::new())
}

/// What a table of remapping hardware, or the failure to read it, says: there is such hardware where
/// the table could be read.
pub fn dmar_answer(table: Result<Vec<u8>, AcpiError>) -> (r: Result<bool, AcpiError>)
    ensures
        r == (match table {
            Ok(_) => Ok::<bool, AcpiError>(true),
            Err(e) => Err(e),
        }),
{
    match table {
        Ok(_) => Ok(true),
        Err(error) => Err(error),
    }
}

/// Whether there is remapping hardware, with tables in memory from a heap. It fails for want of
/// memory exactly where the heap refuses to hold one.
pub fn dmar_present_in<M: PhysicalMemory>(memory: &M, rsdp_phys: u64, heap: &mut Heap) -> (r: Result<
    bool,
    AcpiError,
>)
    requires
        !old(heap).refused(),
    ensures
        if final(heap).refused() {
            r == Err::<bool, AcpiError>(AcpiError::Allocation) && has_tables(*memory, rsdp_phys)
        } else {
            r == describes_dmar(*memory, rsdp_phys)
        },
{
    let entries = root_entries(memory, rsdp_phys, heap)?;
    let mut i: usize = 0;
    while i < entries.len()
        invariant
            i <= entries@.len(),
            !heap.refused(),
            has_tables(*memory, rsdp_phys),
            describes_dmar(*memory, rsdp_phys) == find_dmar(*memory, entries@, i as int),
        decreases entries@.len() - i,
    {
        if sdt_signature(memory, entries[i])? == DMAR_SIGNATURE {
            return dmar_answer(read_table(memory, entries[i], heap));
        }
        i = i + 1;
    }
    Ok(false)
}

proof fn lemma_find_region_sound<M: PhysicalMemory>(
    memory: M,
    tables: Seq<u64>,
    from: int,
    found: Option<McfgRegion>,
)
    ensures
        find_region(memory, tables, from, found) matches Ok(region) ==> found == Some(region)
            || exists|i: int|
            from <= i < tables.len() && region_at(memory, #[trigger] tables[i]) == Ok::<
                McfgRegion,
                AcpiError,
            >(region),
    decreases tables.len() - from,
{
    if from < tables.len() {
        if let Ok(signature) = signature_at(memory, tables[from]) {
            if signature != MCFG_SIGNATURE {
                lemma_find_region_sound(memory, tables, from + 1, found);
            } else if found is None {
                if let Ok(region) = region_at(memory, tables[from]) {
                    lemma_find_region_sound(memory, tables, from + 1, Some(region));
                    assert(region_at(memory, tables[from]) == Ok::<McfgRegion, AcpiError>(region));
                }
            }
        }
    }
}

/// A region that was found is usable: it starts on a page, its buses are in order, and all of
/// its bytes can be mapped.
pub proof fn law_region_can_be_mapped<M: PhysicalMemory>(memory: M, rsdp: u64)
    ensures
        described_region(memory, rsdp) matches Ok(region) ==> {
            &&& region.segment == 0
            &&& region.base > 0 && region.base % PAGE_BYTES == 0
            &&& region.bus_start <= region.bus_end
            &&& region.base + (region.bus_end - region.bus_start + 1) * BUS_BYTES
                <= MAX_MAPPABLE_PHYSICAL + 1
        },
{
    if let Ok(found) = tables(memory, rsdp) {
        lemma_find_region_sound(memory, found, 0, None);
    }
}

/// The number in `n` bytes, least significant first.
pub open spec fn number_in(bytes: Seq<u8>, at: int, n: nat) -> int
    decreases n,
{
    if n == 0 {
        0
    } else {
        bytes[at] + 256 * number_in(bytes, at + 1, (n - 1) as nat)
    }
}

proof fn lemma_numbers(bytes: Seq<u8>, at: int)
    ensures
        le16(bytes, at) == number_in(bytes, at, 2),
        le32(bytes, at) == number_in(bytes, at, 4),
        le64(bytes, at) == number_in(bytes, at, 8),
{
    reveal_with_fuel(number_in, 9);
}

/// These four letters stand at a place.
pub open spec fn spells(bytes: Seq<u8>, at: int, a: u8, b: u8, c: u8, d: u8) -> bool {
    bytes[at] == a && bytes[at + 1] == b && bytes[at + 2] == c && bytes[at + 3] == d
}

proof fn lemma_letters(header: Seq<u8>)
    ensures
        le32(header, 0) == XSDT_SIGNATURE <==> spells(header, 0, 0x58, 0x53, 0x44, 0x54),
        le32(header, 0) == RSDT_SIGNATURE <==> spells(header, 0, 0x52, 0x53, 0x44, 0x54),
        le32(header, 0) == MCFG_SIGNATURE <==> spells(header, 0, 0x4D, 0x43, 0x46, 0x47),
        le32(header, 0) == DMAR_SIGNATURE <==> spells(header, 0, 0x44, 0x4D, 0x41, 0x52),
{
}

proof fn lemma_halves(low: u32, high: u32)
    requires
        low + 4294967296 * high == 0x2052_5450_2044_5352int,
    ensures
        low == 0x2044_5352,
        high == 0x2052_5450,
{
}

proof fn lemma_four_letters(bytes: Seq<u8>, at: int)
    ensures
        le32(bytes, at) == 0x2044_5352 ==> spells(bytes, at, 0x52, 0x53, 0x44, 0x20),
        le32(bytes, at) == 0x2052_5450 ==> spells(bytes, at, 0x50, 0x54, 0x52, 0x20),
{
}

proof fn lemma_eight_letters(pointer: Seq<u8>)
    requires
        le64(pointer, 0) == RSDP_SIGNATURE,
    ensures
        spells(pointer, 0, 0x52, 0x53, 0x44, 0x20),
        spells(pointer, 4, 0x50, 0x54, 0x52, 0x20),
{
    lemma_halves(le32(pointer, 0), le32(pointer, 4));
    lemma_four_letters(pointer, 0);
    lemma_four_letters(pointer, 4);
}

/// What the root pointer holds if it leads to a root table.
pub open spec fn points_at(pointer: Seq<u8>, long: bool, physical: u64) -> bool {
    &&& spells(pointer, 0, 0x52, 0x53, 0x44, 0x20)
    &&& spells(pointer, 4, 0x50, 0x54, 0x52, 0x20)
    &&& total(pointer.subrange(0, 20)) % 256 == 0
    &&& long ==> total(pointer) % 256 == 0
    &&& long <==> pointer[15] >= 2
    &&& physical == if long {
        number_in(pointer, 24, 8)
    } else {
        number_in(pointer, 16, 4)
    }
}

proof fn lemma_pointer<M: PhysicalMemory>(memory: M, rsdp: u64)
    requires
        root_of(memory, rsdp) is Ok,
    ensures
        ({
            let root = root_of(memory, rsdp)->Ok_0;
            &&& memory.content(rsdp, 36) matches Ok(pointer) && points_at(
                pointer,
                root.stride == 8,
                root.physical,
            )
            &&& root.stride == 8 ==> root.signature == XSDT_SIGNATURE
            &&& root.stride != 8 ==> root.stride == 4 && root.signature == RSDT_SIGNATURE
        }),
{
    let pointer = header_at(memory, rsdp)->Ok_0;
    lemma_numbers(pointer, 24);
    lemma_numbers(pointer, 16);
    lemma_eight_letters(pointer);
}

/// What a root table holds: addresses behind a header of 36 bytes, `width` bytes each.
pub open spec fn lists<M: PhysicalMemory>(
    memory: M,
    physical: u64,
    width: int,
    found: Seq<u64>,
) -> bool {
    memory.content(physical, 36) matches Ok(header) && {
        let length = number_in(header, 4, 4);
        &&& length == 36 + width * found.len()
        &&& memory.content(physical, length as nat) matches Ok(body) && {
            &&& total(body) % 256 == 0
            &&& forall|i: int|
                0 <= i < found.len() ==> (#[trigger] found[i]) == number_in(
                    body,
                    36 + width * i,
                    width as nat,
                )
        }
    }
}

proof fn lemma_lists<M: PhysicalMemory>(memory: M, physical: u64, signature: u32, stride: int)
    requires
        stride == 4 || stride == 8,
        signed_entries(memory, physical, signature, stride) is Ok,
    ensures
        lists(
            memory,
            physical,
            stride,
            signed_entries(memory, physical, signature, stride)->Ok_0,
        ),
        le32(memory.content(physical, 36)->Ok_0, 0) == signature,
{
    let header = header_at(memory, physical)->Ok_0;
    let found = signed_entries(memory, physical, signature, stride)->Ok_0;
    lemma_numbers(header, 4);
    let body = table_at(memory, physical)->Ok_0;
    assert forall|i: int| 0 <= i < found.len() implies (#[trigger] found[i]) == number_in(
        body,
        36 + stride * i,
        stride as nat,
    ) by {
        lemma_numbers(body, 36 + stride * i);
    }
}

/// The tables are those whose addresses the root table lists, all of them and in its order. The
/// root pointer starts with `RSD PTR ` and its first 20 bytes add up to a multiple of 256. From
/// revision 2 on, all 36 do, and the root table is `XSDT` with eight bytes for each address; else
/// it is `RSDT` with four.
pub proof fn law_the_tables_are_those_listed<M: PhysicalMemory>(memory: M, rsdp: u64)
    ensures
        tables(memory, rsdp) matches Ok(found) ==> {
            &&& rsdp != 0
            &&& memory.content(rsdp, 36) matches Ok(pointer) && {
                let long = pointer[15] >= 2;
                let root = (if long {
                    number_in(pointer, 24, 8)
                } else {
                    number_in(pointer, 16, 4)
                }) as u64;
                let header = memory.content(root, 36)->Ok_0;
                &&& points_at(pointer, long, root)
                &&& long ==> spells(header, 0, 0x58, 0x53, 0x44, 0x54)
                &&& long ==> lists(memory, root, 8, found)
                &&& !long ==> spells(header, 0, 0x52, 0x53, 0x44, 0x54)
                &&& !long ==> lists(memory, root, 4, found)
            }
        },
{
    if let Ok(found) = tables(memory, rsdp) {
        lemma_pointer(memory, rsdp);
        let root = root_of(memory, rsdp)->Ok_0;
        lemma_lists(memory, root.physical, root.signature, root.stride);
        lemma_letters(memory.content(root.physical, 36)->Ok_0);
        let pointer = memory.content(rsdp, 36)->Ok_0;
        assert(points_at(pointer, pointer[15] >= 2, root.physical));
    }
}

/// A table is the one that describes the configuration space.
pub open spec fn is_space_table<M: PhysicalMemory>(memory: M, physical: u64) -> bool {
    memory.content(physical, 36) matches Ok(header) && spells(header, 0, 0x4D, 0x43, 0x46, 0x47)
}

/// A table of 60 bytes tells of a region: the base is in bytes 44 to 51, the segment in the next
/// two, the first bus in byte 54 and the last in byte 55.
pub open spec fn space_told<M: PhysicalMemory>(
    memory: M,
    physical: u64,
    region: McfgRegion,
) -> bool {
    let header = memory.content(physical, 36)->Ok_0;
    memory.content(physical, number_in(header, 4, 4) as nat) matches Ok(body) && {
        &&& body.len() == 60
        &&& total(body) % 256 == 0
        &&& region.base == number_in(body, 44, 8)
        &&& region.segment == number_in(body, 52, 2)
        &&& region.bus_start == body[54]
        &&& region.bus_end == body[55]
    }
}

proof fn lemma_space_told<M: PhysicalMemory>(memory: M, physical: u64, region: McfgRegion)
    requires
        region_at(memory, physical) == Ok::<McfgRegion, AcpiError>(region),
    ensures
        space_told(memory, physical, region),
{
    let header = header_at(memory, physical)->Ok_0;
    let body = table_at(memory, physical)->Ok_0;
    lemma_numbers(header, 4);
    lemma_numbers(body, 44);
    lemma_numbers(body, 52);
}

proof fn lemma_one_region<M: PhysicalMemory>(
    memory: M,
    tables: Seq<u64>,
    from: int,
    found: Option<McfgRegion>,
)
    requires
        0 <= from,
    ensures
        find_region(memory, tables, from, found) matches Ok(region) ==> {
            &&& found is Some ==> found == Some(region) && forall|j: int|
                from <= j < tables.len() ==> !is_space_table(memory, #[trigger] tables[j])
            &&& found is None ==> exists|i: int|
                {
                    &&& from <= i < tables.len()
                    &&& is_space_table(memory, #[trigger] tables[i])
                    &&& region_at(memory, tables[i]) == Ok::<McfgRegion, AcpiError>(region)
                    &&& forall|j: int|
                        from <= j < tables.len() && j != i ==> !is_space_table(
                            memory,
                            #[trigger] tables[j],
                        )
                }
        },
    decreases tables.len() - from,
{
    if from < tables.len() {
        if let Ok(header) = header_at(memory, tables[from]) {
            lemma_letters(header);
            if le32(header, 0) != MCFG_SIGNATURE {
                lemma_one_region(memory, tables, from + 1, found);
            } else if found is None {
                if let Ok(region) = region_at(memory, tables[from]) {
                    lemma_one_region(memory, tables, from + 1, Some(region));
                    assert(is_space_table(memory, tables[from]));
                }
            }
        }
    }
}

/// The region is the one that the only table with the letters `MCFG` tells of.
pub proof fn law_the_region_is_the_one_described<M: PhysicalMemory>(memory: M, rsdp: u64)
    ensures
        described_region(memory, rsdp) matches Ok(region) ==> {
            let found = tables(memory, rsdp)->Ok_0;
            exists|i: int|
                {
                    &&& 0 <= i < found.len()
                    &&& is_space_table(memory, #[trigger] found[i])
                    &&& space_told(memory, found[i], region)
                    &&& forall|j: int|
                        0 <= j < found.len() && j != i ==> !is_space_table(
                            memory,
                            #[trigger] found[j],
                        )
                }
        },
{
    if let Ok(region) = described_region(memory, rsdp) {
        let found = tables(memory, rsdp)->Ok_0;
        lemma_one_region(memory, found, 0, None);
        let i = choose|i: int|
            {
                &&& 0 <= i < found.len()
                &&& is_space_table(memory, #[trigger] found[i])
                &&& region_at(memory, found[i]) == Ok::<McfgRegion, AcpiError>(region)
                &&& forall|j: int|
                    0 <= j < found.len() && j != i ==> !is_space_table(memory, #[trigger] found[j])
            };
        lemma_space_told(memory, found[i], region);
    }
}

} // verus!
