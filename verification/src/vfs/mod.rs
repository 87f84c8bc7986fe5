//! Paths over a file system.
use vstd::prelude::*;

use crate::block::BlockDevice;
use crate::ext2::directory::{self, lookup_step};
use crate::ext2::volume::{Step, Volume};
use crate::ext2::{self, if_mounted, inode, mutation, Ext2, Ext2Error, ROOT_NODE};
use crate::fs::{listing, DirEntry, EntryView, Metadata, Name, NodeId};
use crate::heap::Heap;

pub mod canonical;
pub mod change;
pub mod path;
pub mod read;
pub mod resolve;
pub mod steady;

pub use path::{render_cwd_path, Cwd, ResolvedPath};

verus! {

/// What a file system reports.
#[derive(Clone, Copy, Debug, PartialEq, Eq, Structural)]
pub enum FsError {
    NotFound,
    WrongNodeKind,
    Corrupt,
    Unsupported,
    Allocation,
    Io,
    FileTooLarge,
    WriteDisabled,
    ReadOnly,
    AlreadyExists,
    NotEmpty,
    NoSpace,
}

/// Why a path operation failed.
#[derive(Clone, Copy, Debug, PartialEq, Eq, Structural)]
pub enum VfsError {
    Fs(FsError),
    InvalidPath,
    NotDirectory,
    NotRegularFile,
    Busy,
    Allocation,
}

/// What an operation returns, and the model of the file system that it leaves.
pub struct Outcome<M, T, E> {
    pub result: Result<T, E>,
    pub model: M,
}

impl<M, T, E> Outcome<M, T, E> {
    /// Goes on with `next` where this succeeded.
    pub open spec fn and_then<U>(
        self,
        next: spec_fn(T, M) -> Outcome<M,
        U,
        E>,
    ) -> Outcome<M, U, E> {
        match self.result {
            Ok(value) => next(value, self.model),
            Err(error) => Outcome { result: Err(error), model: self.model },
        }
    }
}

impl<M, T> Outcome<M, T, FsError> {
    /// The same, with the error as one of a path operation.
    pub open spec fn lifted(self) -> Outcome<M, T, VfsError> {
        Outcome {
            result: match self.result {
                Ok(value) => Ok(value),
                Err(error) => Err(VfsError::Fs(error)),
            },
            model: self.model,
        }
    }
}

/// Ends with a value.
pub open spec fn done<M, T, E>(model: M, value: T) -> Outcome<M, T, E> {
    Outcome { result: Ok(value), model }
}

/// Stops with an error.
pub open spec fn stop<M, T, E>(model: M, error: E) -> Outcome<M, T, E> {
    Outcome { result: Err(error), model }
}

/// A tree of directories and files.
///
/// What an operation does is a function of the file system's model and the arguments, but that
/// memory may be refused where a directory with entries is listed, or is tested for being empty.
pub trait FileSystem: Sized {
    type Model;

    closed spec fn wf(&self) -> bool {
        arbitrary()
    }

    closed spec fn model(&self) -> Self::Model {
        arbitrary()
    }

    /// Memory was refused in the last listing or removal of a directory.
    closed spec fn refused(&self) -> bool {
        arbitrary()
    }

    /// What listing a directory leaves where memory is refused.
    closed spec fn short_listing(m: Self::Model, dir: NodeId, after: Self::Model) -> bool {
        arbitrary()
    }

    /// What removing a directory leaves where memory is refused.
    closed spec fn short_removal(
        m: Self::Model,
        parent: NodeId,
        name: Seq<u8>,
        after: Self::Model,
    ) -> bool {
        arbitrary()
    }

    closed spec fn root_node() -> NodeId {
        arbitrary()
    }

    closed spec fn metadata_step(
        m: Self::Model,
        node: NodeId,
    ) -> Outcome<Self::Model, Metadata, FsError> {
        arbitrary()
    }

    closed spec fn lookup_step(m: Self::Model, dir: NodeId, name: Seq<u8>) -> Outcome<
        Self::Model,
        NodeId,
        FsError,
    > {
        arbitrary()
    }

    closed spec fn read_dir_step(m: Self::Model, dir: NodeId) -> Outcome<
        Self::Model,
        Seq<EntryView>,
        FsError,
    > {
        arbitrary()
    }

    /// Also says what the buffer holds afterwards.
    closed spec fn read_at_step(m: Self::Model, node: NodeId, offset: u64, dst: Seq<u8>) -> (
        Outcome<Self::Model, usize, FsError>,
        Seq<u8>,
    ) {
        arbitrary()
    }

    closed spec fn write_at_step(
        m: Self::Model,
        node: NodeId,
        offset: u64,
        src: Seq<u8>,
    ) -> Outcome<
        Self::Model,
        (),
        FsError,
    > {
        arbitrary()
    }

    closed spec fn truncate_step(m: Self::Model, node: NodeId, len: u64) -> Outcome<
        Self::Model,
        (),
        FsError,
    > {
        arbitrary()
    }

    closed spec fn create_file_step(m: Self::Model, parent: NodeId, name: Seq<u8>) -> Outcome<
        Self::Model,
        NodeId,
        FsError,
    > {
        arbitrary()
    }

    closed spec fn create_dir_step(m: Self::Model, parent: NodeId, name: Seq<u8>) -> Outcome<
        Self::Model,
        NodeId,
        FsError,
    > {
        arbitrary()
    }

    closed spec fn unlink_file_step(m: Self::Model, parent: NodeId, name: Seq<u8>) -> Outcome<
        Self::Model,
        (),
        FsError,
    > {
        arbitrary()
    }

    closed spec fn remove_dir_step(m: Self::Model, parent: NodeId, name: Seq<u8>) -> Outcome<
        Self::Model,
        (),
        FsError,
    > {
        arbitrary()
    }

    closed spec fn sync_step(m: Self::Model) -> Outcome<Self::Model, (), FsError> {
        arbitrary()
    }

    closed spec fn unmount_step(m: Self::Model) -> Outcome<Self::Model, (), FsError> {
        arbitrary()
    }

    fn root(&self) -> (node: NodeId)
        ensures
            node == Self::root_node(),
    ;

    fn metadata(&mut self, node: NodeId) -> (r: Result<Metadata, FsError>)
        requires
            old(self).wf(),
        ensures
            final(self).wf(),
            (Outcome { result: r, model: final(self).model() }) == Self::metadata_step(
                old(self).model(),
                node,
            ),
    ;

    fn lookup(&mut self, dir: NodeId, name: &Name) -> (r: Result<NodeId, FsError>)
        requires
            old(self).wf(),
        ensures
            final(self).wf(),
            (Outcome { result: r, model: final(self).model() }) == Self::lookup_step(
                old(self).model(),
                dir,
                name@,
            ),
    ;

    fn read_dir(&mut self, dir: NodeId) -> (r: Result<Vec<DirEntry>, FsError>)
        requires
            old(self).wf(),
        ensures
            final(self).wf(),
            if final(self).refused() {
                &&& r is Err && r->Err_0 == FsError::Allocation
                &&& Self::short_listing(old(self).model(), dir, final(self).model())
                &&& Self::read_dir_step(old(self).model(), dir).result != Ok::<
                    Seq<EntryView>,
                    FsError,
                >(Seq::empty())
            } else {
                (Outcome {
                    result: match r {
                        Ok(entries) => Ok(listing(entries@)),
                        Err(e) => Err(e),
                    },
                    model: final(self).model(),
                }) == Self::read_dir_step(old(self).model(), dir)
            },
    ;

    fn read_at(&mut self, node: NodeId, offset: u64, dst: &mut [u8]) -> (r: Result<usize, FsError>)
        requires
            old(self).wf(),
        ensures
            final(self).wf(),
            final(dst)@.len() == old(dst)@.len(),
            (Outcome { result: r, model: final(self).model() }, final(dst)@) == Self::read_at_step(
                old(self).model(),
                node,
                offset,
                old(dst)@,
            ),
    ;

    fn write_at(&mut self, node: NodeId, offset: u64, src: &[u8]) -> (r: Result<(), FsError>)
        requires
            old(self).wf(),
        ensures
            final(self).wf(),
            (Outcome { result: r, model: final(self).model() }) == Self::write_at_step(
                old(self).model(),
                node,
                offset,
                src@,
            ),
    ;

    fn truncate(&mut self, node: NodeId, len: u64) -> (r: Result<(), FsError>)
        requires
            old(self).wf(),
        ensures
            final(self).wf(),
            (Outcome { result: r, model: final(self).model() }) == Self::truncate_step(
                old(self).model(),
                node,
                len,
            ),
    ;

    fn create_file(&mut self, parent: NodeId, name: &Name) -> (r: Result<NodeId, FsError>)
        requires
            old(self).wf(),
        ensures
            final(self).wf(),
            (Outcome { result: r, model: final(self).model() }) == Self::create_file_step(
                old(self).model(),
                parent,
                name@,
            ),
    ;

    fn create_dir(&mut self, parent: NodeId, name: &Name) -> (r: Result<NodeId, FsError>)
        requires
            old(self).wf(),
        ensures
            final(self).wf(),
            (Outcome { result: r, model: final(self).model() }) == Self::create_dir_step(
                old(self).model(),
                parent,
                name@,
            ),
    ;

    fn unlink_file(&mut self, parent: NodeId, name: &Name) -> (r: Result<(), FsError>)
        requires
            old(self).wf(),
        ensures
            final(self).wf(),
            (Outcome { result: r, model: final(self).model() }) == Self::unlink_file_step(
                old(self).model(),
                parent,
                name@,
            ),
    ;

    fn remove_dir(&mut self, parent: NodeId, name: &Name) -> (r: Result<(), FsError>)
        requires
            old(self).wf(),
        ensures
            final(self).wf(),
            if final(self).refused() {
                &&& r == Err::<(), FsError>(FsError::Allocation)
                &&& Self::short_removal(old(self).model(), parent, name@, final(self).model())
                &&& Self::remove_dir_step(old(self).model(), parent, name@).result is Err
            } else {
                (Outcome { result: r, model: final(self).model() }) == Self::remove_dir_step(
                    old(self).model(),
                    parent,
                    name@,
                )
            },
    ;

    fn sync(&mut self) -> (r: Result<(), FsError>)
        requires
            old(self).wf(),
        ensures
            final(self).wf(),
            (Outcome { result: r, model: final(self).model() }) == Self::sync_step(
                old(self).model(),
            ),
    ;

    fn unmount(&mut self) -> (r: Result<(), FsError>)
        requires
            old(self).wf(),
        ensures
            final(self).wf(),
            (Outcome { result: r, model: final(self).model() }) == Self::unmount_step(
                old(self).model(),
            ),
    ;
}

/// What an error of the on-disk file system means to its users.
pub open spec fn fs_error(error: Ext2Error) -> FsError {
    match error {
        Ext2Error::NotFound => FsError::NotFound,
        Ext2Error::WrongNodeKind => FsError::WrongNodeKind,
        Ext2Error::Allocation => FsError::Allocation,
        Ext2Error::Block(_) => FsError::Io,
        Ext2Error::UnsupportedFile => FsError::Unsupported,
        Ext2Error::FileTooLarge => FsError::FileTooLarge,
        Ext2Error::WriteDisabled => FsError::WriteDisabled,
        Ext2Error::ReadOnly => FsError::ReadOnly,
        Ext2Error::AlreadyExists => FsError::AlreadyExists,
        Ext2Error::DirectoryNotEmpty => FsError::NotEmpty,
        Ext2Error::NoSpace => FsError::NoSpace,
        Ext2Error::UnsupportedSector { .. } => FsError::Corrupt,
        Ext2Error::UnsupportedProfile { .. } => FsError::Corrupt,
        Ext2Error::UnsupportedFeature { .. } => FsError::Corrupt,
        Ext2Error::MountRequiresCleanFilesystem => FsError::Corrupt,
        Ext2Error::CorruptMetadata { .. } => FsError::Corrupt,
        Ext2Error::InvalidNode => FsError::Corrupt,
        Ext2Error::SparseFile => FsError::Corrupt,
    }
}

/// A step of the on-disk file system as its users see it.
pub open spec fn seen<T>(step: Step<T>) -> Outcome<Volume, T, FsError> {
    Outcome {
        result: match step.result {
            Ok(value) => Ok(value),
            Err(error) => Err(fs_error(error)),
        },
        model: step.volume,
    }
}

/// What an error of the on-disk file system means to its users.
fn map_ext2_error(error: Ext2Error) -> (r: FsError)
    ensures
        r == fs_error(error),
{
    match error {
        Ext2Error::NotFound => FsError::NotFound,
        Ext2Error::WrongNodeKind => FsError::WrongNodeKind,
        Ext2Error::Allocation => FsError::Allocation,
        Ext2Error::Block(_) => FsError::Io,
        Ext2Error::UnsupportedFile => FsError::Unsupported,
        Ext2Error::FileTooLarge => FsError::FileTooLarge,
        Ext2Error::WriteDisabled => FsError::WriteDisabled,
        Ext2Error::ReadOnly => FsError::ReadOnly,
        Ext2Error::AlreadyExists => FsError::AlreadyExists,
        Ext2Error::DirectoryNotEmpty => FsError::NotEmpty,
        Ext2Error::NoSpace => FsError::NoSpace,
        Ext2Error::UnsupportedSector { .. } => FsError::Corrupt,
        Ext2Error::UnsupportedProfile { .. } => FsError::Corrupt,
        Ext2Error::UnsupportedFeature { .. } => FsError::Corrupt,
        Ext2Error::MountRequiresCleanFilesystem => FsError::Corrupt,
        Ext2Error::CorruptMetadata { .. } => FsError::Corrupt,
        Ext2Error::InvalidNode => FsError::Corrupt,
        Ext2Error::SparseFile => FsError::Corrupt,
    }
}

/// The same result with the error as users of the file system see it.
fn seen_result<T>(r: Result<T, Ext2Error>) -> (s: Result<T, FsError>)
    ensures
        s == (match r {
            Ok(value) => Ok(value),
            Err(error) => Err(fs_error(error)),
        }),
{
    match r {
        Ok(value) => Ok(value),
        Err(error) => Err(map_ext2_error(error)),
    }
}

impl<D: BlockDevice> FileSystem for Ext2<D> {
    type Model = Volume;

    open spec fn wf(&self) -> bool {
        Ext2::wf(self)
    }

    open spec fn model(&self) -> Volume {
        self.volume()
    }

    open spec fn refused(&self) -> bool {
        Ext2::refused(self)
    }

    open spec fn short_listing(m: Volume, dir: NodeId, after: Volume) -> bool {
        m.readable() is Ok && directory::short_listing(m, dir, after) && directory::only_read(
            m,
            after,
        )
    }

    open spec fn short_removal(
        m: Volume,
        parent: NodeId,
        name: Seq<u8>,
        after: Volume,
    ) -> bool {
        mutation::short_removal(m, parent, name, after) && directory::only_read(m, after)
    }

    open spec fn root_node() -> NodeId {
        NodeId(ROOT_NODE)
    }

    open spec fn metadata_step(m: Volume, node: NodeId) -> Outcome<Volume, Metadata, FsError> {
        seen(if_mounted(m, inode::metadata_step(m, node)))
    }

    open spec fn lookup_step(m: Volume, dir: NodeId, name: Seq<u8>) -> Outcome<
        Volume,
        NodeId,
        FsError,
    > {
        seen(if_mounted(m, lookup_step(m, dir, name)))
    }

    open spec fn read_dir_step(m: Volume, dir: NodeId) -> Outcome<Volume, Seq<EntryView>, FsError> {
        seen(if_mounted(m, directory::read_dir_step(m, dir)))
    }

    open spec fn read_at_step(m: Volume, node: NodeId, offset: u64, dst: Seq<u8>) -> (
        Outcome<Volume, usize, FsError>,
        Seq<u8>,
    ) {
        (
            seen(if_mounted(m, inode::read_at_step(m, node, offset, dst).0)),
            if m.readable() is Ok {
                inode::read_at_step(m, node, offset, dst).1
            } else {
                dst
            },
        )
    }

    open spec fn write_at_step(m: Volume, node: NodeId, offset: u64, src: Seq<u8>) -> Outcome<
        Volume,
        (),
        FsError,
    > {
        seen(mutation::write_at_step(m, node, offset, src))
    }

    open spec fn truncate_step(m: Volume, node: NodeId, len: u64) -> Outcome<Volume, (), FsError> {
        seen(mutation::truncate_step(m, node, len))
    }

    open spec fn create_file_step(m: Volume, parent: NodeId, name: Seq<u8>) -> Outcome<
        Volume,
        NodeId,
        FsError,
    > {
        seen(mutation::create_file_step(m, parent, name))
    }

    open spec fn create_dir_step(m: Volume, parent: NodeId, name: Seq<u8>) -> Outcome<
        Volume,
        NodeId,
        FsError,
    > {
        seen(mutation::create_dir_step(m, parent, name))
    }

    open spec fn unlink_file_step(m: Volume, parent: NodeId, name: Seq<u8>) -> Outcome<
        Volume,
        (),
        FsError,
    > {
        seen(mutation::unlink_file_step(m, parent, name))
    }

    open spec fn remove_dir_step(m: Volume, parent: NodeId, name: Seq<u8>) -> Outcome<
        Volume,
        (),
        FsError,
    > {
        seen(mutation::remove_dir_step(m, parent, name))
    }

    open spec fn sync_step(m: Volume) -> Outcome<Volume, (), FsError> {
        seen(ext2::sync_step(m))
    }

    open spec fn unmount_step(m: Volume) -> Outcome<Volume, (), FsError> {
        seen(ext2::unmount_step(m))
    }

    fn root(&self) -> (node: NodeId) {
        Ext2::root(self)
    }

    fn metadata(&mut self, node: NodeId) -> (r: Result<Metadata, FsError>) {
        seen_result(Ext2::metadata(self, node))
    }

    fn lookup(&mut self, dir: NodeId, name: &Name) -> (r: Result<NodeId, FsError>) {
        seen_result(Ext2::lookup(self, dir, name))
    }

    fn read_dir(&mut self, dir: NodeId) -> (r: Result<Vec<DirEntry>, FsError>) {
        seen_result(Ext2::read_dir(self, dir))
    }

    fn read_at(
        &mut self,
        node: NodeId,
        offset: u64,
        dst: &mut [u8],
    ) -> (r: Result<usize, FsError>) {
        seen_result(Ext2::read_at(self, node, offset, dst))
    }

    fn write_at(&mut self, node: NodeId, offset: u64, src: &[u8]) -> (r: Result<(), FsError>) {
        seen_result(Ext2::write_at(self, node, offset, src))
    }

    fn truncate(&mut self, node: NodeId, len: u64) -> (r: Result<(), FsError>) {
        seen_result(Ext2::truncate(self, node, len))
    }

    fn create_file(&mut self, parent: NodeId, name: &Name) -> (r: Result<NodeId, FsError>) {
        seen_result(Ext2::create_file(self, parent, name))
    }

    fn create_dir(&mut self, parent: NodeId, name: &Name) -> (r: Result<NodeId, FsError>) {
        seen_result(Ext2::create_dir(self, parent, name))
    }

    fn unlink_file(&mut self, parent: NodeId, name: &Name) -> (r: Result<(), FsError>) {
        seen_result(Ext2::unlink_file(self, parent, name))
    }

    fn remove_dir(&mut self, parent: NodeId, name: &Name) -> (r: Result<(), FsError>) {
        seen_result(Ext2::remove_dir(self, parent, name))
    }

    fn sync(&mut self) -> (r: Result<(), FsError>) {
        seen_result(Ext2::sync(self))
    }

    fn unmount(&mut self) -> (r: Result<(), FsError>) {
        seen_result(Ext2::unmount(self))
    }
}

/// Paths over a file system.
pub struct Vfs<F: FileSystem> {
    filesystem: F,
    heap: Heap,
}

impl<F: FileSystem> Vfs<F> {
    /// The file system is well formed.
    pub closed spec fn wf(&self) -> bool {
        self.filesystem.wf()
    }

    /// The model of the file system.
    pub closed spec fn model(&self) -> F::Model {
        self.filesystem.model()
    }

    /// Memory was refused in the last operation on a path.
    pub closed spec fn refused(&self) -> bool {
        self.heap.refused()
    }

    /// Memory was refused in the file system's last listing or removal of a directory.
    pub closed spec fn refused_below(&self) -> bool {
        self.filesystem.refused()
    }

    /// Paths over a file system.
    pub fn new(filesystem: F) -> (vfs: Vfs<F>)
        requires
            filesystem.wf(),
        ensures
            vfs.wf(),
            vfs.model() == filesystem.model(),
    {
        Vfs { filesystem, heap: Heap::new() }
    }

    /// The working directory at the start: the root.
    pub fn initial_cwd(&self) -> (cwd: Cwd)
        ensures
            cwd@ == Seq::<Seq<u8>>::empty(),
    {
        Cwd::root()
    }
}

} // verus!
