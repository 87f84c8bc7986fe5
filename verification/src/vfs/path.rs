//! Working directories and canonical paths.
use vstd::prelude::*;

use crate::fs::{name_byte, name_check, Name, NodeId};
use crate::heap::Heap;

use super::VfsError;

verus! {

/// The byte between the components of a path.
pub const SLASH: u8 = 0x2f;

/// A working directory: the names that lead to it from the root.
pub struct Cwd {
    pub components: Vec<Name>,
}

/// A node, and the names that lead to it from the root.
#[derive(Debug, PartialEq, Eq)]
pub struct ResolvedPath {
    pub node: NodeId,
    pub components: Vec<Name>,
}

/// The bytes of some names.
pub open spec fn names(components: Seq<Name>) -> Seq<Seq<u8>> {
    components.map_values(|name: Name| name@)
}

impl View for Cwd {
    type V = Seq<Seq<u8>>;

    open spec fn view(&self) -> Seq<Seq<u8>> {
        names(self.components@)
    }
}

/// Each name behind a slash.
pub open spec fn joined(components: Seq<Seq<u8>>) -> Seq<u8>
    decreases components.len(),
{
    if components.len() == 0 {
        Seq::empty()
    } else {
        joined(components.drop_last()).push(SLASH) + components.last()
    }
}

/// The canonical path of a directory.
pub open spec fn rendered(components: Seq<Seq<u8>>) -> Seq<u8> {
    if components.len() == 0 {
        seq![SLASH]
    } else {
        joined(components)
    }
}

impl Cwd {
    /// The root directory.
    pub fn root() -> (cwd: Cwd)
        ensures
            cwd@ == Seq::<Seq<u8>>::empty(),
    {
        let cwd = Cwd { components: Vec::new() };
        assert(cwd@ =~= Seq::<Seq<u8>>::empty());
        cwd
    }
}

/// A copy of some names, unless there are some and the heap refuses to hold them.
pub(crate) fn clone_components(components: &Vec<Name>, heap: &mut Heap) -> (r: Result<
    Vec<Name>,
    VfsError,
>)
    requires
        !old(heap).refused(),
    ensures
        final(heap).refused() ==> components@.len() > 0,
        match r {
            Ok(cloned) => !final(heap).refused() && names(cloned@) == names(components@),
            Err(e) => final(heap).refused() && e == VfsError::Allocation,
        },
{
    let mut cloned: Vec<Name> = Vec::new();
    if components.len() > 0 && !heap.reserve(&mut cloned, components.len()) {
        return Err(VfsError::Allocation);
    }
    let mut i: usize = 0;
    while i < components.len()
        invariant
            i <= components@.len(),
            cloned@.len() == i,
            forall|j: int| 0 <= j < i ==> (#[trigger] cloned@[j])@ == components@[j]@,
        decreases components@.len() - i,
    {
        cloned.push(components[i].clone());
        i = i + 1;
    }
    assert(names(cloned@) =~= names(components@));
    Ok(cloned)
}

/// The length of a canonical path; the greatest number where it does not fit one.
pub(crate) fn canonical_path_len(components: &Vec<Name>) -> (len: usize)
    ensures
        len == (if rendered(names(components@)).len() <= usize::MAX {
            rendered(names(components@)).len()
        } else {
            usize::MAX as nat
        }),
{
    if components.len() == 0 {
        return 1;
    }
    let ghost all = names(components@);
    let mut len: usize = 0;
    let mut i: usize = 0;
    while i < components.len()
        invariant
            i <= components@.len(),
            all == names(components@),
            len == (if joined(all.take(i as int)).len() <= usize::MAX {
                joined(all.take(i as int)).len()
            } else {
                usize::MAX as nat
            }),
        decreases components@.len() - i,
    {
        let bytes = components[i].as_bytes();
        assert(all.take(i + 1).drop_last() =~= all.take(i as int));
        assert(all.take(i + 1).last() == bytes@);
        len = len.saturating_add(1).saturating_add(bytes.len());
        i = i + 1;
    }
    assert(all.take(components@.len() as int) =~= all);
    len
}

/// Whether a canonical path with one more component of `component_len` bytes is longer than
/// `limit`.
pub(crate) fn longer_after_push(
    components: &Vec<Name>,
    component_len: usize,
    limit: usize,
) -> (r: bool)
    requires
        limit < usize::MAX,
    ensures
        forall|component: Seq<u8>|
            component.len() == component_len ==> r == (#[trigger] rendered(
                names(components@).push(component),
            ).len() > limit),
{
    let base: usize = if components.len() == 0 {
        0
    } else {
        canonical_path_len(components)
    };
    assert forall|component: Seq<u8>| component.len() == component_len implies #[trigger] rendered(
        names(components@).push(component),
    ).len() == joined(names(components@)).len() + 1 + component_len by {
        assert(names(components@).push(component).drop_last() =~= names(components@));
    }
    base.saturating_add(1).saturating_add(component_len) > limit
}

/// Appends the canonical path of a directory.
pub(crate) fn render_into(path: &mut Vec<u8>, cwd: &Cwd)
    ensures
        final(path)@ == old(path)@ + rendered(cwd@),
{
    if cwd.components.len() == 0 {
        path.push(SLASH);
        assert(path@ =~= old(path)@ + rendered(cwd@));
        return;
    }
    let ghost start = path@;
    let mut i: usize = 0;
    while i < cwd.components.len()
        invariant
            i <= cwd.components@.len(),
            path@ == start + joined(cwd@.take(i as int)),
        decreases cwd.components@.len() - i,
    {
        let bytes = cwd.components[i].as_bytes();
        assert(cwd@.take(i + 1).drop_last() =~= cwd@.take(i as int));
        assert(cwd@.take(i + 1).last() == bytes@);
        path.push(SLASH);
        path.extend_from_slice(bytes);
        assert(path@ =~= start + joined(cwd@.take(i + 1)));
        i = i + 1;
    }
    assert(cwd@.take(cwd.components@.len() as int) =~= cwd@);
}

/// The canonical path of a directory, in memory from a heap.
pub fn cwd_path_in(cwd: &Cwd, heap: &mut Heap) -> (r: Result<Vec<u8>, VfsError>)
    requires
        !old(heap).refused(),
    ensures
        match r {
            Ok(path) => !final(heap).refused() && path@ == rendered(cwd@),
            Err(e) => final(heap).refused() && e == VfsError::Allocation,
        },
{
    let mut path: Vec<u8> = Vec::new();
    if !heap.reserve(&mut path, canonical_path_len(&cwd.components)) {
        return Err(VfsError::Allocation);
    }
    render_into(&mut path, cwd);
    assert(path@ =~= rendered(cwd@));
    Ok(path)
}

/// Renders the canonical path of a directory into a buffer that `reserve` makes room in. Where
/// it cannot, memory is short.
pub fn render_cwd_path<E>(
    cwd: &Cwd,
    reserve: impl FnOnce(&mut Vec<u8>, usize) -> Result<(), E>,
) -> (r: Result<Vec<u8>, VfsError>)
    requires
        forall|buffer: &mut Vec<u8>, len: usize| call_requires(reserve, (buffer, len)),
    ensures
        exists|buffer: &mut Vec<u8>, len: usize, reserved: Result<(), E>|
            #![trigger call_ensures(reserve, (buffer, len), reserved)]
            {
                &&& call_ensures(reserve, (buffer, len), reserved)
                &&& (*buffer)@ == Seq::<u8>::empty()
                &&& len == rendered(cwd@).len() || len == usize::MAX
                &&& match reserved {
                    Ok(()) => r is Ok && r->Ok_0@ == (*final(buffer))@ + rendered(cwd@),
                    Err(_) => r == Err::<Vec<u8>, VfsError>(VfsError::Allocation),
                }
            },
{
    let mut path: Vec<u8> = Vec::new();
    let len: usize = canonical_path_len(&cwd.components);
    match reserve(&mut path, len) {
        Ok(()) => {},
        Err(_) => return Err(VfsError::Allocation),
    }
    render_into(&mut path, cwd);
    Ok(path)
}

/// Canonical paths tell directories apart: directories with the same path have the same names,
/// since no name holds a slash.
pub proof fn law_paths_are_canonical(a: Seq<Seq<u8>>, b: Seq<Seq<u8>>)
    requires
        forall|i: int| 0 <= i < a.len() ==> name_check(#[trigger] a[i]) is Ok,
        forall|i: int| 0 <= i < b.len() ==> name_check(#[trigger] b[i]) is Ok,
        rendered(a) == rendered(b),
    ensures
        a == b,
{
    if a.len() > 0 && b.len() > 0 {
        lemma_joined_injective(a, b);
    } else if a.len() > 0 {
        lemma_one_slash(a);
    } else if b.len() > 0 {
        lemma_one_slash(b);
    } else {
        assert(a =~= b);
    }
}

proof fn lemma_one_slash(a: Seq<Seq<u8>>)
    requires
        a.len() > 0,
        forall|i: int| 0 <= i < a.len() ==> name_check(#[trigger] a[i]) is Ok,
    ensures
        joined(a).len() > 1,
{
    assert(name_check(a[a.len() - 1]) is Ok);
}

/// The last slash tells a name from what stands before it.
proof fn lemma_last_slash(a: Seq<u8>, x: Seq<u8>, b: Seq<u8>, y: Seq<u8>)
    requires
        a.push(SLASH) + x == b.push(SLASH) + y,
        forall|i: int| 0 <= i < x.len() ==> #[trigger] x[i] != SLASH,
        forall|i: int| 0 <= i < y.len() ==> #[trigger] y[i] != SLASH,
    ensures
        a == b,
        x == y,
{
    let p = a.push(SLASH) + x;
    let at = a.len() as int;
    let bt = b.len() as int;
    let q = b.push(SLASH) + y;
    assert(p.len() == at + 1 + x.len() && q.len() == bt + 1 + y.len());
    assert(p[at] == SLASH && q[bt] == SLASH);
    if at < bt {
        assert(bt - at - 1 < x.len());
        assert(p[bt] == x[bt - at - 1]);
    } else if bt < at {
        assert(at - bt - 1 < y.len());
        assert(q[at] == y[at - bt - 1]);
    }
    assert(a =~= p.take(at));
    assert(b =~= p.take(bt));
    assert(x =~= p.skip(at + 1));
    assert(y =~= p.skip(bt + 1));
}

/// A name holds no slash.
pub(super) proof fn lemma_no_slash(name: Seq<u8>)
    requires
        name_check(name) is Ok,
    ensures
        forall|i: int| 0 <= i < name.len() ==> #[trigger] name[i] != SLASH,
{
    assert forall|i: int| 0 <= i < name.len() implies #[trigger] name[i] != SLASH by {
        assert(name_byte(name[i]));
    }
}

proof fn lemma_joined_injective(a: Seq<Seq<u8>>, b: Seq<Seq<u8>>)
    requires
        forall|i: int| 0 <= i < a.len() ==> name_check(#[trigger] a[i]) is Ok,
        forall|i: int| 0 <= i < b.len() ==> name_check(#[trigger] b[i]) is Ok,
        joined(a) == joined(b),
    ensures
        a == b,
    decreases a.len(),
{
    if a.len() == 0 {
        if b.len() > 0 {
            lemma_one_slash(b);
        }
        assert(a =~= b);
    } else if b.len() == 0 {
        lemma_one_slash(a);
    } else {
        let (first, x) = (a.drop_last(), a.last());
        let (other, y) = (b.drop_last(), b.last());
        lemma_no_slash(a[a.len() - 1]);
        lemma_no_slash(b[b.len() - 1]);
        lemma_last_slash(joined(first), x, joined(other), y);
        assert forall|i: int| 0 <= i < first.len() implies name_check(#[trigger] first[i]) is Ok by {
            assert(name_check(a[i]) is Ok);
        }
        assert forall|i: int| 0 <= i < other.len() implies name_check(#[trigger] other[i]) is Ok by {
            assert(name_check(b[i]) is Ok);
        }
        lemma_joined_injective(first, other);
        assert(a =~= first.push(x));
        assert(b =~= other.push(y));
    }
}

} // verus!
