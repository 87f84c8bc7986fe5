//! Mapping device registers into memory.
use vstd::prelude::*;

verus! {

#[derive(Clone, Copy, Debug, PartialEq, Eq, Structural)]
pub enum MapError {
    InvalidRange,
    AlreadyMapped,
    NoMemory,
    UnsupportedDepth,
}

pub const PAGE_BYTES: u64 = 4096;

/// The last physical byte that can be mapped.
pub const MAX_DIRECT_PHYSICAL: u64 = 0x7FFF_FFFF_FFFF;

/// Where device registers are mapped.
pub const PCI_WINDOW_BASE: u64 = 0xFFFF_C000_0000_0000;

/// The flags of a page of device registers: present, writable, uncached and not executable.
pub const UC_MMIO_FLAGS: u64 = 0x8000_0000_0000_001B;

/// The bits of a page table entry that hold an address.
pub const ENTRY_ADDR_MASK: u64 = 0x000F_FFFF_FFFF_F000;

pub const ENTRY_PRESENT: u64 = 1;

pub const ENTRY_HUGE: u64 = 0x80;

/// The index of an address in the page table of a level; the page is level 0.
pub open spec fn index_at(virt: u64, level: int) -> u64 {
    if level == 4 {
        virt / 0x1_0000_0000_0000 % 512
    } else if level == 3 {
        virt / 0x80_0000_0000 % 512
    } else if level == 2 {
        virt / 0x4000_0000 % 512
    } else if level == 1 {
        virt / 0x20_0000 % 512
    } else {
        virt / 0x1000 % 512
    }
}

/// The indices of an address in the page tables, from the root on. With four levels the first
/// is not used.
pub fn page_indices(virt: u64, five_level: bool) -> (indices: [u16; 5])
    ensures
        indices@[0] == (if five_level {
            index_at(virt, 4)
        } else {
            0
        }),
        indices@[1] == index_at(virt, 3),
        indices@[2] == index_at(virt, 2),
        indices@[3] == index_at(virt, 1),
        indices@[4] == index_at(virt, 0),
{
    let mut indices = [0u16; 5];
    if five_level {
        indices[0] = (virt / 0x1_0000_0000_0000 % 512) as u16;
    }
    indices[1] = (virt / 0x80_0000_0000 % 512) as u16;
    indices[2] = (virt / 0x4000_0000 % 512) as u16;
    indices[3] = (virt / 0x20_0000 % 512) as u16;
    indices[4] = (virt / 0x1000 % 512) as u16;
    indices
}

/// An address that the page tables can reach: at the lower or the upper end of the address
/// space.
pub open spec fn canonical(virt: u64, five_level: bool) -> bool {
    if five_level {
        virt < 0x100_0000_0000_0000 || virt >= 0xFF00_0000_0000_0000
    } else {
        virt < 0x8000_0000_0000 || virt >= 0xFFFF_8000_0000_0000
    }
}

/// Whether the page tables can reach an address.
pub fn is_canonical(virt: u64, five_level: bool) -> (r: bool)
    ensures
        r == canonical(virt, five_level),
{
    if five_level {
        virt < 0x100_0000_0000_0000 || virt >= 0xFF00_0000_0000_0000
    } else {
        virt < 0x8000_0000_0000 || virt >= 0xFFFF_8000_0000_0000
    }
}

/// The pages that a physical range touches: the first, their number, and where in the first the
/// range starts. A range must not be empty, nor end behind what can be mapped.
pub open spec fn covered(base: u64, len: usize) -> Result<(u64, u64, u64), MapError> {
    if len == 0 || base + len > MAX_DIRECT_PHYSICAL + 1 {
        Err(MapError::InvalidRange)
    } else {
        Ok(
            (
                (base - base % PAGE_BYTES) as u64,
                ((base % PAGE_BYTES + len + (PAGE_BYTES - 1)) / (PAGE_BYTES as int)) as u64,
                (base % PAGE_BYTES) as u64,
            ),
        )
    }
}

/// The pages that a physical range touches.
pub fn cover_range(base: u64, len: usize) -> (r: Result<(u64, u64, u64), MapError>)
    ensures
        r == covered(base, len),
{
    if len == 0 {
        return Err(MapError::InvalidRange);
    }
    let end: u64 = match base.checked_add(len as u64) {
        Some(end) => end,
        None => return Err(MapError::InvalidRange),
    };
    if end - 1 > MAX_DIRECT_PHYSICAL {
        return Err(MapError::InvalidRange);
    }
    let offset: u64 = base % PAGE_BYTES;
    let pages: u64 = (offset + len as u64 + (PAGE_BYTES - 1)) / PAGE_BYTES;
    Ok((base - offset, pages, offset))
}

/// The pages hold the whole range, and one page less would not.
pub proof fn law_pages_cover_the_range(base: u64, len: usize)
    ensures
        covered(base, len) matches Ok((first, pages, offset)) ==> {
            &&& first % PAGE_BYTES == 0
            &&& first + offset == base && offset < PAGE_BYTES
            &&& first <= base && base + len <= first + pages * PAGE_BYTES
            &&& base + len > first + (pages - 1) * PAGE_BYTES
        },
{
}

/// The indices and the place in the page give the address back, where the page tables can reach
/// it.
pub proof fn law_indices_tell_addresses_apart(a: u64, b: u64)
    requires
        canonical(a, true),
        canonical(b, true),
        a % PAGE_BYTES == b % PAGE_BYTES,
        forall|level: int| 0 <= level <= 4 ==> #[trigger] index_at(a, level) == index_at(b, level),
    ensures
        a == b,
{
    assert(index_at(a, 0) == index_at(b, 0));
    assert(index_at(a, 1) == index_at(b, 1));
    assert(index_at(a, 2) == index_at(b, 2));
    assert(index_at(a, 3) == index_at(b, 3));
    assert(index_at(a, 4) == index_at(b, 4));
    let (a0, b0) = (a / 0x1000, b / 0x1000);
    let (a1, b1) = (a / 0x20_0000, b / 0x20_0000);
    let (a2, b2) = (a / 0x4000_0000, b / 0x4000_0000);
    let (a3, b3) = (a / 0x80_0000_0000, b / 0x80_0000_0000);
    let (a4, b4) = (a / 0x1_0000_0000_0000, b / 0x1_0000_0000_0000);
    assert(a4 == b4) by {
        assert(a4 < 256 || 0xFF00 <= a4 < 0x10000);
        assert(b4 < 256 || 0xFF00 <= b4 < 0x10000);
    }
    assert(a3 == b3) by {
        assert(a3 / 512 == a4 && b3 / 512 == b4);
    }
    assert(a2 == b2) by {
        assert(a2 / 512 == a3 && b2 / 512 == b3);
    }
    assert(a1 == b1) by {
        assert(a1 / 512 == a2 && b1 / 512 == b2);
    }
    assert(a0 == b0) by {
        assert(a0 / 512 == a1 && b0 / 512 == b1);
    }
}

} // verus!
