//! Names, nodes and directory entries.
use vstd::prelude::*;

use crate::heap::Heap;

verus! {

/// The longest name, in bytes.
pub const NAME_MAX: usize = 255;

/// One component of a path.
#[derive(Debug, PartialEq, Eq)]
pub struct Name {
    bytes: Vec<u8>,
}

/// Why bytes are not a name.
#[derive(Clone, Copy, Debug, PartialEq, Eq, Structural)]
pub enum NameError {
    Empty,
    TooLong,
    InvalidByte,
    Allocation,
}

#[derive(Clone, Copy, Debug, PartialEq, Eq, Structural)]
pub struct NodeId(pub u32);

#[derive(Clone, Copy, Debug, PartialEq, Eq, Structural)]
pub enum NodeKind {
    Regular,
    Directory,
}

#[derive(Clone, Copy, Debug, PartialEq, Eq, Structural)]
pub struct Metadata {
    pub kind: NodeKind,
    pub len: u64,
    pub mode: u16,
}

#[derive(Debug, PartialEq, Eq)]
pub struct DirEntry {
    pub name: Name,
    pub node: NodeId,
    pub kind: NodeKind,
}

/// What a directory entry says.
pub struct EntryView {
    pub name: Seq<u8>,
    pub node: NodeId,
    pub kind: NodeKind,
}

/// A byte that may stand in a name: printable ASCII other than the slash.
pub open spec fn name_byte(b: u8) -> bool {
    0x20 <= b <= 0x7e && b != 0x2f
}

/// Whether bytes are a name, and why not.
pub open spec fn name_check(bytes: Seq<u8>) -> Result<(), NameError> {
    if bytes.len() == 0 {
        Err(NameError::Empty)
    } else if bytes.len() > NAME_MAX {
        Err(NameError::TooLong)
    } else if exists|i: int| 0 <= i < bytes.len() && !name_byte(#[trigger] bytes[i]) {
        Err(NameError::InvalidByte)
    } else {
        Ok(())
    }
}

/// Tests whether bytes are a name.
pub fn check_name(bytes: &[u8]) -> (r: Result<(), NameError>)
    ensures
        r == name_check(bytes@),
{
    if bytes.len() == 0 {
        return Err(NameError::Empty);
    }
    if bytes.len() > NAME_MAX {
        return Err(NameError::TooLong);
    }
    let mut i: usize = 0;
    while i < bytes.len()
        invariant
            i <= bytes@.len(),
            0 < bytes@.len() <= NAME_MAX,
            forall|j: int| 0 <= j < i ==> name_byte(#[trigger] bytes@[j]),
        decreases bytes@.len() - i,
    {
        let byte: u8 = bytes[i];
        if byte < 0x20 || byte > 0x7e || byte == 0x2f {
            assert(!name_byte(bytes@[i as int]));
            return Err(NameError::InvalidByte);
        }
        i = i + 1;
    }
    Ok(())
}

impl View for Name {
    type V = Seq<u8>;

    closed spec fn view(&self) -> Seq<u8> {
        self.bytes@
    }
}

impl View for DirEntry {
    type V = EntryView;

    open spec fn view(&self) -> EntryView {
        EntryView { name: self.name@, node: self.node, kind: self.kind }
    }
}

/// What the entries of a listing say.
pub open spec fn listing(entries: Seq<DirEntry>) -> Seq<EntryView> {
    entries.map_values(|entry: DirEntry| entry@)
}

impl Clone for Name {
    fn clone(&self) -> (r: Name)
        ensures
            r@ == self@,
    {
        proof {
            use_type_invariant(self);
        }
        let mut owned: Vec<u8> = Vec::new();
        owned.extend_from_slice(self.bytes.as_slice());
        assert(owned@ =~= self.bytes@);
        Name { bytes: owned }
    }
}

impl Name {
    /// Every name passes the test.
    #[verifier::type_invariant]
    spec fn wf(self) -> bool {
        name_check(self.bytes@) == Ok::<(), NameError>(())
    }

    /// A name with these bytes. The name is refused for want of memory, or as `name_check` says.
    pub fn new(bytes: &[u8]) -> (r: Result<Name, NameError>)
        ensures
            match r {
                Ok(name) => name_check(bytes@) is Ok && name@ == bytes@,
                Err(NameError::Allocation) => name_check(bytes@) is Ok,
                Err(e) => name_check(bytes@) == Err::<(), NameError>(e),
            },
    {
        Name::new_in(bytes, &mut Heap::new())
    }

    /// A name with these bytes, in memory from a heap. It fails for want of memory exactly where
    /// the bytes are a name and the heap refuses to hold them.
    pub fn new_in(bytes: &[u8], heap: &mut Heap) -> (r: Result<Name, NameError>)
        requires
            !old(heap).refused(),
        ensures
            final(heap).refused() ==> name_check(bytes@) is Ok,
            match r {
                Ok(name) => !final(heap).refused() && name_check(bytes@) is Ok && name@ == bytes@,
                Err(e) => if final(heap).refused() {
                    e == NameError::Allocation
                } else {
                    name_check(bytes@) == Err::<(), NameError>(e)
                },
            },
    {
        match check_name(bytes) {
            Err(e) => return Err(e),
            Ok(()) => {},
        }
        let mut owned: Vec<u8> = Vec::new();
        let room = heap.reserve(&mut owned, bytes.len());
        Name::placed(bytes, owned, room)
    }

    /// A name with these bytes in a buffer that has room for them, or has not.
    fn placed(bytes: &[u8], buffer: Vec<u8>, room: bool) -> (r: Result<Name, NameError>)
        requires
            name_check(bytes@) is Ok,
            buffer@.len() == 0,
        ensures
            match r {
                Ok(name) => room && name@ == bytes@,
                Err(e) => !room && e == NameError::Allocation,
            },
    {
        if !room {
            return Err(NameError::Allocation);
        }
        let mut owned = buffer;
        owned.extend_from_slice(bytes);
        assert(owned@ =~= bytes@);
        Ok(Name { bytes: owned })
    }

    /// The bytes of the name.
    pub fn as_bytes(&self) -> (bytes: &[u8])
        ensures
            bytes@ == self@,
            name_check(bytes@) == Ok::<(), NameError>(()),
    {
        proof {
            use_type_invariant(self);
        }
        self.bytes.as_slice()
    }
}

} // verus!
