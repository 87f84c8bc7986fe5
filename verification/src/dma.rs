//! Memory that devices can reach.
use vstd::prelude::*;

verus! {

/// What memory is asked for. `max_address` bounds the last byte.
pub struct DmaLayout {
    pub size: usize,
    pub align: usize,
    pub max_address: u64,
    pub zeroed: bool,
}

/// Gives out memory that devices can reach.
pub trait DmaAllocator {
    fn allocate(&mut self, layout: DmaLayout) -> Result<DmaAllocation, DmaError>;
}

/// Memory that was given out: where the processor and where devices see it.
#[derive(Debug, PartialEq, Eq, Structural)]
pub struct DmaAllocation {
    pub cpu_address: u64,
    pub device_address: u64,
    pub len: usize,
}

#[derive(Clone, Copy, Debug, PartialEq, Eq, Structural)]
pub enum DmaError {
    TooLarge,
    BadAlign,
    AddressLimit,
    NoMemory,
    Allocation,
}

/// A range that was filled with a byte.
pub struct Fill {
    pub phys: u64,
    pub len: usize,
    pub byte: u8,
}

/// Where page frames come from.
pub trait FrameSource {
    /// The frames that are left, in the order in which they are handed out.
    closed spec fn frames(&self) -> Seq<u64> {
        arbitrary()
    }

    /// The ranges that were filled, oldest first.
    closed spec fn fills(&self) -> Seq<Fill> {
        arbitrary()
    }

    /// Where the processor sees a physical address.
    closed spec fn seen_at(&self, phys: u64) -> u64 {
        arbitrary()
    }

    fn allocate_frame(&mut self) -> (frame: Option<u64>)
        ensures
            final(self).fills() == old(self).fills(),
            forall|phys: u64| #[trigger] final(self).seen_at(phys) == old(self).seen_at(phys),
            match frame {
                Some(frame) => old(self).frames().len() > 0 && frame == old(self).frames()[0]
                    && final(self).frames() == old(self).frames().skip(1),
                None => old(self).frames().len() == 0 && final(self).frames() == old(
                    self,
                ).frames(),
            },
    ;

    fn fill_range(&mut self, phys: u64, len: usize, byte: u8)
        ensures
            final(self).frames() == old(self).frames(),
            final(self).fills() == old(self).fills().push(Fill { phys, len, byte }),
            forall|phys: u64| #[trigger] final(self).seen_at(phys) == old(self).seen_at(phys),
    ;

    fn cpu_address(&self, phys: u64) -> (address: u64)
        ensures
            address == self.seen_at(phys),
    ;
}

/// Gives out memory from frames that follow each other, and never takes it back.
pub struct BumpDmaAllocator<S> {
    source: S,
}

pub const PAGE_BYTES: u64 = 4096;

pub const MAX_ALLOCATION_BYTES: usize = 0x40_0000;

pub const MAX_ALIGN_BYTES: usize = 65536;

/// No byte at or behind this address can be reached.
pub const MAX_DIRECT_PHYSICAL: u64 = 0x7FFF_FFFF_FFFF;

/// A number with a single bit set.
pub open spec fn single_bit(n: usize) -> bool {
    n > 0 && n & (n - 1) as usize == 0
}

/// Why a layout is refused.
pub open spec fn layout_fault(layout: DmaLayout) -> Option<DmaError> {
    if layout.size == 0 || layout.size > MAX_ALLOCATION_BYTES {
        Some(DmaError::TooLarge)
    } else if layout.align > MAX_ALIGN_BYTES || !single_bit(layout.align) {
        Some(DmaError::BadAlign)
    } else {
        None
    }
}

/// The frames that a layout needs in a row: those for its bytes, and those that aligning may skip.
pub open spec fn frames_for(layout: DmaLayout) -> int {
    (layout.size + (PAGE_BYTES - 1)) / (PAGE_BYTES as int) + if layout.align <= PAGE_BYTES {
        0
    } else {
        layout.align as int / (PAGE_BYTES as int)
    }
}

/// Frames in a row: the first, the last, and their number.
pub struct Run {
    pub first: u64,
    pub last: u64,
    pub count: int,
}

/// The run after one more frame: longer if the frame follows, else a new one.
pub open spec fn extended(run: Option<Run>, frame: u64) -> Run {
    match run {
        Some(run) => if frame == run.last + PAGE_BYTES {
            Run { first: run.first, last: frame, count: run.count + 1 }
        } else {
            Run { first: frame, last: frame, count: 1 }
        },
        None => Run { first: frame, last: frame, count: 1 },
    }
}

/// Takes frames until there are `needed` in a row. Gives the first of them, or none if the
/// frames run out, and the frames that are left.
pub open spec fn take_run(frames: Seq<u64>, run: Option<Run>, needed: int) -> (
    Option<u64>,
    Seq<u64>,
)
    decreases frames.len(),
{
    if run is Some && run->0.count == needed {
        (Some(run->0.first), frames)
    } else if frames.len() == 0 {
        (None, frames)
    } else {
        take_run(frames.skip(1), Some(extended(run, frames[0])), needed)
    }
}

/// The least multiple of `align` from `value` on.
pub open spec fn aligned_up(value: int, align: int) -> int {
    (value + (align - 1)) / align * align
}

/// What a layout gets from a run that starts with `first`: the address of its first byte.
pub open spec fn placed(layout: DmaLayout, first: u64) -> Result<u64, DmaError> {
    let start = aligned_up(first as int, layout.align as int);
    let end = start + layout.size;
    if first + (layout.align - 1) > u64::MAX || end > u64::MAX || end - 1 > layout.max_address
        || end > MAX_DIRECT_PHYSICAL {
        Err(DmaError::AddressLimit)
    } else {
        Ok(start as u64)
    }
}

impl<S: FrameSource> BumpDmaAllocator<S> {
    /// The source of the frames.
    pub closed spec fn frame_source(&self) -> S {
        self.source
    }

    /// An allocator that takes frames from a source.
    pub fn new(source: S) -> (allocator: BumpDmaAllocator<S>)
        ensures
            allocator.frame_source() == source,
    {
        BumpDmaAllocator { source }
    }

    /// The source of the frames, to be changed.
    pub fn source_mut(&mut self) -> (source: &mut S)
        ensures
            *source == old(self).frame_source(),
            final(self).frame_source() == *final(source),
    {
        &mut self.source
    }
}

/// The least multiple of `align` from `value` on, if it fits.
fn align_up(value: u64, align: u64) -> (r: Option<u64>)
    requires
        align > 0,
    ensures
        match r {
            Some(aligned) => value + (align - 1) <= u64::MAX && aligned == aligned_up(
                value as int,
                align as int,
            ),
            None => value + (align - 1) > u64::MAX,
        },
{
    let raised: u64 = match value.checked_add(align - 1) {
        Some(raised) => raised,
        None => return None,
    };
    assert(raised / align * align <= raised) by (nonlinear_arith)
        requires
            align > 0,
    ;
    Some(raised / align * align)
}

impl<S: FrameSource> DmaAllocator for BumpDmaAllocator<S> {
    fn allocate(&mut self, layout: DmaLayout) -> (r: Result<DmaAllocation, DmaError>)
        ensures
            match layout_fault(layout) {
                Some(e) => r == Err::<DmaAllocation, DmaError>(e) && *final(self) == *old(self),
                None => ({
                    let before = old(self).frame_source();
                    let after = final(self).frame_source();
                    let (found, left) = take_run(before.frames(), None, frames_for(layout));
                    &&& after.frames() == left
                    &&& match found {
                        None => r == Err::<DmaAllocation, DmaError>(DmaError::NoMemory)
                            && after.fills() == before.fills(),
                        Some(first) => match placed(layout, first) {
                            Err(e) => r == Err::<DmaAllocation, DmaError>(e) && after.fills()
                                == before.fills(),
                            Ok(start) => r == Ok::<DmaAllocation, DmaError>(
                                DmaAllocation {
                                    cpu_address: before.seen_at(start),
                                    device_address: start,
                                    len: layout.size,
                                },
                            ) && after.fills() == (if layout.zeroed {
                                before.fills().push(Fill { phys: start, len: layout.size, byte: 0 })
                            } else {
                                before.fills()
                            }),
                        },
                    }
                }),
            },
    {
        if layout.size == 0 || layout.size > MAX_ALLOCATION_BYTES {
            return Err(DmaError::TooLarge);
        }
        if layout.align == 0 || layout.align > MAX_ALIGN_BYTES || layout.align & (layout.align - 1)
            != 0 {
            return Err(DmaError::BadAlign);
        }
        let needed: u64 = (layout.size as u64 + (PAGE_BYTES - 1)) / PAGE_BYTES;
        let spare: u64 = if layout.align as u64 <= PAGE_BYTES {
            0
        } else {
            layout.align as u64 / PAGE_BYTES
        };
        let total: u64 = needed + spare;
        let ghost before = self.source;
        let ghost whole = take_run(before.frames(), None, total as int);
        let mut first: u64 = 0;
        let mut last: u64 = 0;
        let mut count: u64 = 0;
        while count < total
            invariant
                0 <= count <= total <= 2000,
                self.source.fills() == before.fills(),
                forall|phys: u64| #[trigger] self.source.seen_at(phys) == before.seen_at(phys),
                whole == take_run(
                    self.source.frames(),
                    if count == 0 {
                        None
                    } else {
                        Some(Run { first, last, count: count as int })
                    },
                    total as int,
                ),
                layout_fault(layout) is None,
                total == frames_for(layout),
                before == old(self).frame_source(),
                whole == take_run(before.frames(), None, total as int),
            decreases self.source.frames().len(),
        {
            let frame: u64 = match self.source.allocate_frame() {
                Some(frame) => frame,
                None => return Err(DmaError::NoMemory),
            };
            if count > 0 && frame >= PAGE_BYTES && frame - PAGE_BYTES == last {
                count = count + 1;
            } else {
                first = frame;
                count = 1;
            }
            last = frame;
        }
        let start: u64 = match align_up(first, layout.align as u64) {
            Some(start) => start,
            None => return Err(DmaError::AddressLimit),
        };
        let end: u64 = match start.checked_add(layout.size as u64) {
            Some(end) => end,
            None => return Err(DmaError::AddressLimit),
        };
        if end - 1 > layout.max_address || end > MAX_DIRECT_PHYSICAL {
            return Err(DmaError::AddressLimit);
        }
        if layout.zeroed {
            self.source.fill_range(start, layout.size, 0);
        }
        Ok(
            DmaAllocation {
                cpu_address: self.source.cpu_address(start),
                device_address: start,
                len: layout.size,
            },
        )
    }
}

/// Memory that is given out starts at a multiple of the alignment and lies in the frames that
/// were taken for it, where frames start on pages. So two allocations never share a byte if no
/// frame is handed out twice.
pub proof fn law_memory_lies_in_its_frames(layout: DmaLayout, first: u64)
    requires
        layout_fault(layout) is None,
        first % PAGE_BYTES == 0,
    ensures
        placed(layout, first) matches Ok(start) ==> {
            &&& start as int % (layout.align as int) == 0
            &&& first <= start
            &&& start + layout.size <= first + frames_for(layout) * PAGE_BYTES
            &&& start + layout.size <= MAX_DIRECT_PHYSICAL
            &&& start + (layout.size - 1) <= layout.max_address
        },
{
    let align = layout.align;
    assert(align > 4096 ==> align % 4096 == 0) by (bit_vector)
        requires
            align > 0,
            align <= 65536,
            align & (align - 1) as usize == 0,
    ;
    assert(align <= 4096 ==> 4096usize % align == 0) by (bit_vector)
        requires
            align > 0,
            align & (align - 1) as usize == 0,
    ;
    let a = layout.align as int;
    let f = first as int;
    let q = (f + (a - 1)) / a;
    assert(q * a % a == 0) by (nonlinear_arith)
        requires
            a > 0,
    ;
    assert(f <= q * a <= f + (a - 1)) by (nonlinear_arith)
        requires
            a > 0,
            q == (f + (a - 1)) / a,
    ;
    if layout.align <= PAGE_BYTES {
        assert(q * a == f) by (nonlinear_arith)
            requires
                a > 0,
                f % 4096 == 0,
                4096int % a == 0,
                q == (f + (a - 1)) / a,
        ;
    }
}

/// Frames stand in a row, from a place in a list on: each starts where the one before it ends.
pub open spec fn in_a_row(frames: Seq<u64>, at: int, n: int, first: u64) -> bool {
    &&& 0 <= at && at + n <= frames.len()
    &&& forall|j: int| at <= j < at + n ==> (#[trigger] frames[j]) == first + 4096 * (j - at)
}

/// The last `c` of the first `i` frames are in a row, the row cannot be made longer at its
/// start, and there is no row of `needed` frames among the first `i` but perhaps that one.
spec fn longest_row(frames: Seq<u64>, i: int, run: Option<Run>, needed: int) -> bool {
    let c = if run is Some {
        run->0.count
    } else {
        0
    };
    &&& 0 <= i <= frames.len()
    &&& 0 <= c <= i && c <= needed
    &&& i > 0 ==> c > 0
    &&& run is Some ==> {
        &&& c > 0
        &&& in_a_row(frames, i - c, c, run->0.first)
        &&& run->0.last == run->0.first + 4096 * (c - 1)
        &&& i > c ==> frames[i - c - 1] + 4096 != run->0.first
    }
    &&& forall|at: int, first: u64|
        0 <= at && at + needed < i ==> !#[trigger] in_a_row(frames, at, needed, first)
    &&& forall|at: int, first: u64|
        at + needed == i && c < needed ==> !#[trigger] in_a_row(frames, at, needed, first)
}

proof fn lemma_longer(frames: Seq<u64>, i: int, run: Option<Run>, needed: int)
    requires
        needed > 0,
        longest_row(frames, i, run, needed),
        i < frames.len(),
        run is Some ==> run->0.count < needed,
    ensures
        longest_row(frames, i + 1, Some(extended(run, frames[i])), needed),
{
    let next = extended(run, frames[i]);
    let c = next.count;
    assert(in_a_row(frames, i + 1 - c, c, next.first));
    if c < needed {
        assert forall|at: int, first: u64| at + needed == i + 1 implies !#[trigger] in_a_row(
            frames,
            at,
            needed,
            first,
        ) by {
            if in_a_row(frames, at, needed, first) {
                assert(frames[i - c] == first + 4096 * (i - c - at));
                assert(frames[i + 1 - c] == first + 4096 * (i + 1 - c - at));
                assert(frames[i + 1 - c] == next.first);
            }
        }
    }
}

proof fn lemma_row_taken(frames: Seq<u64>, i: int, run: Option<Run>, needed: int)
    requires
        needed > 0,
        longest_row(frames, i, run, needed),
    ensures
        match take_run(frames.skip(i), run, needed) {
            (Some(first), left) => exists|k: int|
                {
                    &&& needed <= k <= frames.len()
                    &&& left == #[trigger] frames.skip(k)
                    &&& in_a_row(frames, k - needed, needed, first)
                    &&& forall|at: int, other: u64|
                        at + needed < k ==> !#[trigger] in_a_row(frames, at, needed, other)
                },
            (None, left) => left.len() == 0 && forall|at: int, other: u64|
                !#[trigger] in_a_row(frames, at, needed, other),
        },
    decreases frames.len() - i,
{
    if run is Some && run->0.count == needed {
        assert(frames.skip(i) == frames.skip(i));
    } else if i < frames.len() {
        lemma_longer(frames, i, run, needed);
        assert(frames.skip(i).skip(1) =~= frames.skip(i + 1));
        assert(frames.skip(i)[0] == frames[i]);
        lemma_row_taken(frames, i + 1, Some(extended(run, frames[i])), needed);
    }
}

/// What is taken for an allocation ends with the first frames in a row that are enough for it;
/// the frames behind them are left. Only where no such row is left does it fail, and then all
/// frames are gone.
pub proof fn law_the_first_row_is_taken(frames: Seq<u64>, needed: int)
    requires
        needed > 0,
    ensures
        match take_run(frames, None, needed) {
            (Some(first), left) => exists|k: int|
                {
                    &&& needed <= k <= frames.len()
                    &&& left == #[trigger] frames.skip(k)
                    &&& in_a_row(frames, k - needed, needed, first)
                    &&& forall|at: int, other: u64|
                        at + needed < k ==> !#[trigger] in_a_row(frames, at, needed, other)
                },
            (None, left) => left.len() == 0 && forall|at: int, other: u64|
                !#[trigger] in_a_row(frames, at, needed, other),
        },
{
    assert forall|at: int, first: u64| at + needed <= 0 implies !#[trigger] in_a_row(
        frames,
        at,
        needed,
        first,
    ) by {}
    lemma_row_taken(frames, 0, None, needed);
    assert(frames.skip(0) =~= frames);
}

} // verus!
