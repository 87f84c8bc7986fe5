//! Mapping device registers: a window of addresses, and the page tables that lead to it.
//!
//! The tables are in memory that is not touched here. What is to be read and written is asked
//! for, and the walk goes on with the answer.
use vstd::prelude::*;

use crate::memory::{direct_address, directly_mapped};
use crate::mmio::{
    canonical, cover_range, covered, index_at, is_canonical, page_indices, MapError,
    ENTRY_ADDR_MASK, ENTRY_HUGE, ENTRY_PRESENT, PAGE_BYTES, PCI_WINDOW_BASE, UC_MMIO_FLAGS,
};

verus! {

/// Bytes in a page table.
pub const TABLE_BYTES: usize = 4096;

/// A table may be written through this entry.
pub const ENTRY_WRITABLE: u64 = 2;

/// Hands out the addresses at which device registers appear. None is handed out twice.
pub struct Window {
    pub next: u64,
}

impl Window {
    /// Nothing has been handed out.
    pub fn new() -> (window: Window)
        ensures
            window.next == PCI_WINDOW_BASE,
    {
        Window { next: PCI_WINDOW_BASE }
    }

    /// The addresses of some pages.
    pub fn next_window(&mut self, pages: u64) -> (r: Result<u64, MapError>)
        ensures
            match r {
                Ok(start) => {
                    &&& start == old(self).next
                    &&& final(self).next == old(self).next + pages * PAGE_BYTES
                },
                Err(e) => {
                    &&& e == MapError::InvalidRange
                    &&& old(self).next + pages * PAGE_BYTES > u64::MAX
                    &&& final(self).next == old(self).next
                },
            },
    {
        let bytes: u64 = match pages.checked_mul(PAGE_BYTES) {
            Some(bytes) => bytes,
            None => return Err(MapError::InvalidRange),
        };
        let start: u64 = self.next;
        self.next = match start.checked_add(bytes) {
            Some(next) => next,
            None => return Err(MapError::InvalidRange),
        };
        Ok(start)
    }
}

/// Something to be done with the page tables.
#[derive(Clone, Copy, Debug, PartialEq, Eq, Structural)]
pub enum TableAction {
    /// Read an entry. The answer is its value.
    Read { address: u64 },
    /// Write an entry.
    Write { address: u64, value: u64 },
    /// Hand out a frame. The answer is the frame, if there is one.
    Frame,
    /// Fill a frame with zeros.
    Clear { frame: u64 },
    /// Forget what is known of an address.
    Flush { virt: u64 },
}

/// The answer to the last action.
#[derive(Clone, Copy, Debug, PartialEq, Eq, Structural)]
pub enum TableAnswer {
    Value(u64),
    Frame(Option<u64>),
}

#[derive(Clone, Copy, Debug, PartialEq, Eq, Structural)]
pub enum MapStage {
    /// An entry that leads to a table is read.
    Entry,
    /// A frame for a new table is asked for.
    Frame,
    /// The entry of the page itself is read.
    Leaf,
}

/// A range that is being mapped, page by page.
#[derive(Clone, Copy, Debug, PartialEq, Eq, Structural)]
pub struct Mapper {
    pub phys: u64,
    pub virt: u64,
    pub pages: u64,
    pub offset: u64,
    pub five: bool,
    pub root: u64,
    /// The page that is being mapped.
    pub page: u64,
    /// The level of the table that is being read, from the root on; the last is 4.
    pub level: u8,
    pub table: u64,
    pub stage: MapStage,
}

/// What a step of a mapping returns, and what is to be done then.
pub struct MapStep {
    pub result: Result<(Mapper, Option<u64>), MapError>,
    pub deeds: Seq<TableAction>,
}

/// A mapping that failed.
pub open spec fn failed(deeds: Seq<TableAction>, e: MapError) -> MapStep {
    MapStep { result: Err(e), deeds }
}

impl Mapper {
    /// The address that is being mapped.
    pub open spec fn here(self) -> int {
        self.virt + self.page * PAGE_BYTES
    }

    /// Where the entry for the address is in the table.
    pub open spec fn entry(self) -> int {
        self.table + 8 * index_at(self.here() as u64, 4 - self.level)
    }

    /// All addresses fit.
    pub open spec fn wf(self) -> bool {
        &&& self.page < self.pages
        &&& self.virt + self.pages * PAGE_BYTES <= u64::MAX
        &&& self.phys + self.pages * PAGE_BYTES <= u64::MAX
        &&& self.offset < PAGE_BYTES
        &&& self.level <= 4
        &&& self.five || self.level >= 1
        &&& self.stage is Leaf <==> self.level == 4
        &&& directly_mapped(self.table as int, TABLE_BYTES as int)
    }
}

/// Reads the entry for the address in a table.
pub open spec fn visit(m: Mapper, table: u64, level: u8, deeds: Seq<TableAction>) -> MapStep {
    let next = Mapper {
        table,
        level,
        stage: if level < 4 {
            MapStage::Entry
        } else {
            MapStage::Leaf
        },
        ..m
    };
    if directly_mapped(table as int, TABLE_BYTES as int) {
        MapStep {
            result: Ok((next, None)),
            deeds: deeds.push(TableAction::Read { address: next.entry() as u64 }),
        }
    } else {
        failed(deeds, MapError::NoMemory)
    }
}

/// Begins with a page at the root.
pub open spec fn begin_page(m: Mapper, deeds: Seq<TableAction>) -> MapStep {
    if canonical(m.here() as u64, m.five) {
        visit(
            m,
            m.root & ENTRY_ADDR_MASK,
            if m.five {
                0
            } else {
                1
            },
            deeds,
        )
    } else {
        failed(deeds, MapError::InvalidRange)
    }
}

/// What follows an answer. A table that is missing is made; what is mapped already, and a page
/// that stands where a table should, is left as it is.
pub open spec fn map_step(m: Mapper, answer: TableAnswer, deeds: Seq<TableAction>) -> MapStep {
    match (m.stage, answer) {
        (MapStage::Entry, TableAnswer::Value(value)) => if value & ENTRY_PRESENT == 0 {
            MapStep {
                result: Ok((Mapper { stage: MapStage::Frame, ..m }, None)),
                deeds: deeds.push(TableAction::Frame),
            }
        } else if value & ENTRY_HUGE != 0 || value & ENTRY_ADDR_MASK == 0 {
            failed(deeds, MapError::AlreadyMapped)
        } else {
            visit(m, value & ENTRY_ADDR_MASK, (m.level + 1) as u8, deeds)
        },
        (MapStage::Frame, TableAnswer::Frame(Some(frame))) => if directly_mapped(
            frame as int,
            TABLE_BYTES as int,
        ) {
            visit(
                m,
                frame,
                (m.level + 1) as u8,
                deeds.push(TableAction::Clear { frame }).push(
                    TableAction::Write {
                        address: m.entry() as u64,
                        value: frame | ENTRY_PRESENT | ENTRY_WRITABLE,
                    },
                ),
            )
        } else {
            failed(deeds, MapError::NoMemory)
        },
        (MapStage::Leaf, TableAnswer::Value(value)) => if value & ENTRY_PRESENT != 0 {
            failed(deeds, MapError::AlreadyMapped)
        } else {
            next_page(
                m,
                deeds.push(
                    TableAction::Write {
                        address: m.entry() as u64,
                        value: (m.phys + m.page * PAGE_BYTES) as u64 | UC_MMIO_FLAGS,
                    },
                ).push(TableAction::Flush { virt: m.here() as u64 }),
            )
        },
        _ => failed(deeds, MapError::NoMemory),
    }
}

/// Goes on with the next page, or gives the address at which the range appears.
pub open spec fn next_page(m: Mapper, deeds: Seq<TableAction>) -> MapStep {
    if m.page + 1 < m.pages {
        begin_page(Mapper { page: (m.page + 1) as u64, ..m }, deeds)
    } else {
        MapStep { result: Ok((m, Some((m.virt + m.offset) as u64))), deeds }
    }
}

/// The start of a mapping, once its addresses are known.
pub open spec fn new_mapper(
    range: (u64, u64, u64),
    virt: u64,
    five: bool,
    root: u64,
) -> Mapper {
    Mapper {
        phys: range.0,
        virt,
        pages: range.1,
        offset: range.2,
        five,
        root,
        page: 0,
        level: 0,
        table: 0,
        stage: MapStage::Entry,
    }
}

/// What a part of a mapping returns and asks for.
pub open spec fn follows(
    r: Result<Option<u64>, MapError>,
    m: Mapper,
    deeds: Seq<TableAction>,
    step: MapStep,
) -> bool {
    &&& deeds == step.deeds
    &&& match step.result {
        Ok((next, done)) => r == Ok::<_, MapError>(done) && m == next,
        Err(e) => r == Err::<Option<u64>, _>(e),
    }
}

/// Begins to map a range of device registers, uncached. The addresses at which it is to appear
/// are taken from the window even if the mapping fails later.
pub fn map_uncached(
    window: &mut Window,
    base: u64,
    len: usize,
    five: bool,
    root: u64,
    plan: &mut Vec<TableAction>,
) -> (r: Result<Mapper, MapError>)
    ensures
        r matches Ok(m) ==> m.wf(),
        match covered(base, len) {
            Err(e) => {
                &&& r == Err::<Mapper, _>(e)
                &&& final(window).next == old(window).next
                &&& final(plan)@ == old(plan)@
            },
            Ok(range) => if old(window).next + range.1 * PAGE_BYTES > u64::MAX {
                &&& r == Err::<Mapper, _>(MapError::InvalidRange)
                &&& final(window).next == old(window).next
                &&& final(plan)@ == old(plan)@
            } else {
                let step = begin_page(new_mapper(range, old(window).next, five, root), old(plan)@);
                &&& final(window).next == old(window).next + range.1 * PAGE_BYTES
                &&& final(plan)@ == step.deeds
                &&& match step.result {
                    Ok((m, _)) => r == Ok::<_, MapError>(m),
                    Err(e) => r == Err::<Mapper, _>(e),
                }
            },
        },
{
    let (phys, pages, offset): (u64, u64, u64) = cover_range(base, len)?;
    let virt: u64 = window.next_window(pages)?;
    let mut mapper = Mapper {
        phys,
        virt,
        pages,
        offset,
        five,
        root,
        page: 0,
        level: 0,
        table: 0,
        stage: MapStage::Entry,
    };
    mapper.begin_page(plan)?;
    Ok(mapper)
}

impl Mapper {
    /// The address fits, whatever table is read.
    pub open spec fn placed(self) -> bool {
        &&& self.page < self.pages
        &&& self.virt + self.pages * PAGE_BYTES <= u64::MAX
        &&& self.phys + self.pages * PAGE_BYTES <= u64::MAX
        &&& self.offset < PAGE_BYTES
    }

    /// The place of the entry for the address.
    fn entry_address(&self) -> (address: u64)
        requires
            self.wf(),
        ensures
            address == self.entry(),
    {
        let here: u64 = self.virt + self.page * PAGE_BYTES;
        let indices = page_indices(here, self.five);
        let index: u64 = indices[self.level as usize] as u64;
        assert(index == index_at(here, 4 - self.level));
        assert(index < 512);
        self.table + 8 * index
    }

    fn visit(&mut self, table: u64, level: u8, plan: &mut Vec<TableAction>) -> (r: Result<
        Option<u64>,
        MapError,
    >)
        requires
            old(self).placed(),
            level <= 4,
            old(self).five || level >= 1,
        ensures
            r is Ok ==> final(self).wf(),
            follows(
                r,
                *final(self),
                final(plan)@,
                visit(*old(self), table, level, old(plan)@),
            ),
    {
        if direct_address(table, TABLE_BYTES).is_none() {
            return Err(MapError::NoMemory);
        }
        self.table = table;
        self.level = level;
        self.stage = if level < 4 {
            MapStage::Entry
        } else {
            MapStage::Leaf
        };
        plan.push(TableAction::Read { address: self.entry_address() });
        Ok(None)
    }

    fn begin_page(&mut self, plan: &mut Vec<TableAction>) -> (r: Result<Option<u64>, MapError>)
        requires
            old(self).placed(),
        ensures
            r is Ok ==> final(self).wf(),
            follows(r, *final(self), final(plan)@, begin_page(*old(self), old(plan)@)),
    {
        if !is_canonical(self.virt + self.page * PAGE_BYTES, self.five) {
            return Err(MapError::InvalidRange);
        }
        let level: u8 = if self.five {
            0
        } else {
            1
        };
        self.visit(self.root & ENTRY_ADDR_MASK, level, plan)
    }

    /// Goes on with an answer. Gives the address at which the range appears when all its pages
    /// are mapped.
    pub fn resume(&mut self, answer: TableAnswer, plan: &mut Vec<TableAction>) -> (r: Result<
        Option<u64>,
        MapError,
    >)
        requires
            old(self).wf(),
        ensures
            r is Ok ==> final(self).wf(),
            follows(r, *final(self), final(plan)@, map_step(*old(self), answer, old(plan)@)),
    {
        match (self.stage, answer) {
            (MapStage::Entry, TableAnswer::Value(value)) => {
                if value & ENTRY_PRESENT == 0 {
                    plan.push(TableAction::Frame);
                    self.stage = MapStage::Frame;
                    return Ok(None);
                }
                let table: u64 = value & ENTRY_ADDR_MASK;
                if value & ENTRY_HUGE != 0 || table == 0 {
                    return Err(MapError::AlreadyMapped);
                }
                self.visit(table, self.level + 1, plan)
            },
            (MapStage::Frame, TableAnswer::Frame(Some(frame))) => {
                if direct_address(frame, TABLE_BYTES).is_none() {
                    return Err(MapError::NoMemory);
                }
                let address: u64 = self.entry_address();
                plan.push(TableAction::Clear { frame });
                plan.push(
                    TableAction::Write { address, value: frame | ENTRY_PRESENT | ENTRY_WRITABLE },
                );
                self.visit(frame, self.level + 1, plan)
            },
            (MapStage::Leaf, TableAnswer::Value(value)) => {
                if value & ENTRY_PRESENT != 0 {
                    return Err(MapError::AlreadyMapped);
                }
                let address: u64 = self.entry_address();
                let phys: u64 = self.phys + self.page * PAGE_BYTES;
                let virt: u64 = self.virt + self.page * PAGE_BYTES;
                plan.push(TableAction::Write { address, value: phys | UC_MMIO_FLAGS });
                plan.push(TableAction::Flush { virt });
                if self.page + 1 < self.pages {
                    self.page = self.page + 1;
                    return self.begin_page(plan);
                }
                Ok(Some(self.virt + self.offset))
            },
            _ => Err(MapError::NoMemory),
        }
    }
}

/// What is mapped already is left as it is: where an entry for the page is present, or a page
/// stands where a table should, the mapping fails and writes nothing.
pub proof fn law_mappings_are_not_replaced(m: Mapper, value: u64, deeds: Seq<TableAction>)
    requires
        value & ENTRY_PRESENT != 0,
        m.stage is Leaf || m.stage is Entry && value & ENTRY_HUGE != 0,
    ensures
        map_step(m, TableAnswer::Value(value), deeds).result == Err::<(Mapper, Option<u64>), _>(
            MapError::AlreadyMapped,
        ),
        map_step(m, TableAnswer::Value(value), deeds).deeds == deeds,
{
}

/// A new table is cleared before an entry leads to it, and only where no entry was present.
pub proof fn law_tables_are_cleared_first(m: Mapper, value: u64, frame: u64)
    requires
        m.stage is Entry,
        map_step(m, TableAnswer::Value(value), seq![]).result matches Ok((next, _))
            && next.stage is Frame,
        directly_mapped(frame as int, TABLE_BYTES as int),
    ensures
        value & ENTRY_PRESENT == 0,
        ({
            let next = Mapper { stage: MapStage::Frame, ..m };
            let deeds = map_step(next, TableAnswer::Frame(Some(frame)), seq![]).deeds;
            &&& deeds[0] == TableAction::Clear { frame }
            &&& deeds[1] == TableAction::Write {
                address: m.entry() as u64,
                value: frame | ENTRY_PRESENT | ENTRY_WRITABLE,
            }
        }),
{
}

/// How much of the address space an entry in the table of a level stands for.
pub open spec fn entry_span(level: u8) -> int {
    if level == 0 {
        0x1_0000_0000_0000
    } else if level == 1 {
        0x80_0000_0000
    } else if level == 2 {
        0x4000_0000
    } else if level == 3 {
        0x20_0000
    } else {
        0x1000
    }
}

/// An entry that leads on is followed: the next table is where bits 12 to 51 of the entry say, it
/// is one level down, and the entry that is read there is the one whose share of the address
/// space holds the address that is being mapped.
pub proof fn law_the_walk_follows_the_address(m: Mapper, value: u64, deeds: Seq<TableAction>)
    requires
        m.wf(),
        m.stage is Entry,
        value & 1 != 0,
    ensures
        map_step(m, TableAnswer::Value(value), deeds).result matches Ok((next, done)) ==> {
            let address = m.virt + 4096 * m.page;
            let span = entry_span((m.level + 1) as u8);
            let step = map_step(m, TableAnswer::Value(value), deeds);
            &&& done is None
            &&& value & 0x80 == 0
            &&& next.table == value & 0x000F_FFFF_FFFF_F000
            &&& next.level == m.level + 1
            &&& next.page == m.page && next.virt == m.virt && next.phys == m.phys
            &&& step.deeds.len() == deeds.len() + 1
            &&& step.deeds.last() == TableAction::Read {
                address: (next.table + 8 * (address / span % 512)) as u64,
            }
        },
{
    assert(m.here() == m.virt + 4096 * m.page);
    assert(m.page * 4096 <= m.pages * 4096);
}

/// The entry of a page leads to the page of the device that lies as far behind the first as the
/// address does behind the first address. It can be read and written, is not cached, and holds
/// no code. When the last page is entered, the range appears at its place in the first page.
pub proof fn law_pages_are_entered_in_order(m: Mapper, value: u64, deeds: Seq<TableAction>)
    requires
        m.wf(),
        m.stage is Leaf,
        value & 1 == 0,
        m.phys % 4096 == 0,
        m.phys + 4096 * m.pages <= 0x10_0000_0000_0000,
    ensures
        ({
            let step = map_step(m, TableAnswer::Value(value), deeds);
            let address = m.virt + 4096 * m.page;
            &&& step.deeds.len() >= deeds.len() + 2
            &&& step.deeds[deeds.len() as int] matches TableAction::Write { address: at, value: entry }
                && {
                &&& at == m.table + 8 * (address / 4096 % 512)
                &&& entry & 0x000F_FFFF_FFFF_F000 == m.phys + 4096 * m.page
                &&& entry & 1 != 0 && entry & 2 != 0 && entry & 4 == 0
                &&& entry & 8 != 0 && entry & 0x10 != 0 && entry & 0x80 == 0
                &&& entry & 0x8000_0000_0000_0000 != 0
            }
            &&& step.deeds[deeds.len() + 1int] == TableAction::Flush { virt: address as u64 }
            &&& m.page + 1 == m.pages ==> step.result == Ok::<_, MapError>(
                (m, Some((m.virt + m.offset) as u64)),
            )
            &&& m.page + 1 < m.pages ==> (step.result matches Ok((next, done)) ==> {
                &&& done is None
                &&& next.page == m.page + 1
                &&& next.table == m.root & 0x000F_FFFF_FFFF_F000
                &&& step.deeds.len() == deeds.len() + 3
            })
        }),
{
    assert(m.here() == m.virt + 4096 * m.page);
    let page = (m.phys + m.page * 4096) as u64;
    assert(page % 4096 == 0);
    let entry = page | UC_MMIO_FLAGS;
    assert({
        let entry = page | 0x8000_0000_0000_001B;
        &&& entry & 0x000F_FFFF_FFFF_F000 == page
        &&& entry & 1 != 0 && entry & 2 != 0 && entry & 4 == 0
        &&& entry & 8 != 0 && entry & 0x10 != 0 && entry & 0x80 == 0
        &&& entry & 0x8000_0000_0000_0000 != 0
    }) by (bit_vector)
        requires
            page % 4096 == 0,
            page < 0x10_0000_0000_0000,
    ;
}

} // verus!
