//! Reading files by path.
use vstd::prelude::*;
use vstd::slice::slice_subrange;
use vstd::utf8::encode_utf8;

use crate::bytes::zeros;
use crate::fs::{Metadata, NodeId, NodeKind};

use super::path::Cwd;
use super::resolve::{resolve_step, short_resolve, starved, Target, READ_BUFFER_BYTES};
use super::{done, stop, FileSystem, FsError, Outcome, Vfs, VfsError};

verus! {

/// How a sink goes on: what it answers to a piece of a file, and the state that it is in then.
pub type Taking<T> = spec_fn(T, Seq<u8>) -> (Result<(), VfsError>, T);

/// Takes a file, piece by piece. What it does with a piece is a function of its state and the
/// piece.
pub trait FileSink: Sized {
    type State;

    /// The state that the pieces so far have led to.
    closed spec fn state(&self) -> Self::State {
        arbitrary()
    }

    /// How the sink goes on.
    closed spec fn taking() -> Taking<Self::State> {
        arbitrary()
    }

    /// Takes a piece, or refuses it. No piece is empty.
    fn take(&mut self, piece: &[u8]) -> (r: Result<(), VfsError>)
        requires
            0 < piece@.len() <= READ_BUFFER_BYTES,
        ensures
            (r, final(self).state()) == Self::taking()(old(self).state(), piece@),
    ;
}

/// The number of bytes to ask for.
pub open spec fn chunk(remaining: int) -> int {
    if remaining < READ_BUFFER_BYTES {
        remaining
    } else {
        READ_BUFFER_BYTES as int
    }
}

/// Reads a file of `len` bytes from `offset` on, piece by piece, into a buffer, and hands each
/// piece to a sink. A refusal of the sink ends it. Also gives the state of the sink then.
pub open spec fn deliver<F: FileSystem, T>(
    m: F::Model,
    node: NodeId,
    offset: int,
    len: int,
    buffer: Seq<u8>,
    taking: Taking<T>,
    state: T,
) -> (Outcome<F::Model, (), VfsError>, T)
    decreases len - offset,
{
    if offset >= len {
        (done(m, ()), state)
    } else {
        let n = chunk(len - offset);
        let (read, piece) = F::read_at_step(m, node, offset as u64, buffer.take(n));
        match read.result {
            Err(e) => (stop(read.model, VfsError::Fs(e)), state),
            Ok(count) => if count > n {
                (stop(read.model, VfsError::Fs(FsError::Corrupt)), state)
            } else if count == 0 {
                (done(read.model, ()), state)
            } else {
                let (taken, next) = taking(state, piece.take(count as int));
                match taken {
                    Err(e) => (stop(read.model, e), next),
                    Ok(()) => deliver::<F, T>(
                        read.model,
                        node,
                        offset + count,
                        len,
                        piece + buffer.skip(n),
                        taking,
                        next,
                    ),
                }
            },
        }
    }
}

/// Finds the regular file that a path leads to, and its length.
pub open spec fn regular_file<F: FileSystem>(
    m: F::Model,
    cwd: Seq<Seq<u8>>,
    path: Seq<u8>,
) -> Outcome<F::Model, (NodeId, u64), VfsError> {
    resolve_step::<F>(m, cwd, path).and_then(
        |target: Target, m: F::Model|
            F::metadata_step(m, target.node).lifted().and_then(
                |metadata: Metadata, m: F::Model|
                    if metadata.kind == NodeKind::Regular {
                        done(m, (target.node, metadata.len))
                    } else {
                        stop(m, VfsError::NotRegularFile)
                    },
            ),
    )
}

/// Reads a file and hands it to a sink. Also gives the state of the sink then.
pub open spec fn read_file_step<F: FileSystem, T>(
    m: F::Model,
    cwd: Seq<Seq<u8>>,
    path: Seq<u8>,
    taking: Taking<T>,
    state: T,
) -> (Outcome<F::Model, (), VfsError>, T) {
    let found = regular_file::<F>(m, cwd, path);
    match found.result {
        Err(e) => (stop(found.model, e), state),
        Ok((node, len)) => deliver::<F, T>(
            found.model,
            node,
            0,
            len as int,
            zeros(READ_BUFFER_BYTES as nat),
            taking,
            state,
        ),
    }
}

impl<F: FileSystem> Vfs<F> {
    /// Finds the regular file that a path leads to, and its length.
    pub(super) fn find_regular_file(&mut self, cwd: &Cwd, path: &str) -> (r: Result<
        (NodeId, u64),
        VfsError,
    >)
        requires
            old(self).wf(),
        ensures
            final(self).wf(),
            if final(self).refused() {
                starved(r) && short_resolve::<F>(
                    old(self).model(),
                    cwd@,
                    encode_utf8(path@),
                    final(self).model(),
                )
            } else {
                (Outcome { result: r, model: final(self).model() }) == regular_file::<F>(
                    old(self).model(),
                    cwd@,
                    encode_utf8(path@),
                )
            },
    {
        let resolved = self.resolve(cwd, path)?;
        let metadata = self.metadata(resolved.node)?;
        if metadata.kind != NodeKind::Regular {
            return Err(VfsError::NotRegularFile);
        }
        Ok((resolved.node, metadata.len))
    }

    /// Reads a file, and hands it to a sink piece by piece. Where the sink refuses a piece, its
    /// error is the result, and no more is read.
    pub fn read_file<S: FileSink>(&mut self, cwd: &Cwd, path: &str, sink: &mut S) -> (r: Result<
        (),
        VfsError,
    >)
        requires
            old(self).wf(),
        ensures
            final(self).wf(),
            if final(self).refused() {
                &&& starved(r)
                &&& short_resolve::<F>(
                    old(self).model(),
                    cwd@,
                    encode_utf8(path@),
                    final(self).model(),
                )
                &&& final(sink).state() == old(sink).state()
            } else {
                (Outcome { result: r, model: final(self).model() }, final(sink).state())
                    == read_file_step::<F, S::State>(
                    old(self).model(),
                    cwd@,
                    encode_utf8(path@),
                    S::taking(),
                    old(sink).state(),
                )
            },
    {
        let (node, len) = self.find_regular_file(cwd, path)?;
        let mut buffer = [0u8; READ_BUFFER_BYTES];
        let ghost whole = deliver::<F, S::State>(
            self.model(),
            node,
            0,
            len as int,
            buffer@,
            S::taking(),
            sink.state(),
        );
        assert(buffer@ =~= zeros(READ_BUFFER_BYTES as nat));
        assert(whole == read_file_step::<F, S::State>(
            old(self).model(),
            cwd@,
            encode_utf8(path@),
            S::taking(),
            old(sink).state(),
        ));
        let mut offset: u64 = 0;
        while offset < len
            invariant
                self.wf(),
                !self.refused(),
                offset <= len,
                whole == read_file_step::<F, S::State>(
                    old(self).model(),
                    cwd@,
                    encode_utf8(path@),
                    S::taking(),
                    old(sink).state(),
                ),
                whole == deliver::<F, S::State>(
                    self.model(),
                    node,
                    offset as int,
                    len as int,
                    buffer@,
                    S::taking(),
                    sink.state(),
                ),
            decreases len - offset,
        {
            let remaining: u64 = len - offset;
            let read_len: usize = if remaining < READ_BUFFER_BYTES as u64 {
                remaining as usize
            } else {
                READ_BUFFER_BYTES
            };
            let ghost before = buffer@;
            let space: &mut [u8] = &mut buffer;
            let (piece, _rest) = space.split_at_mut(read_len);
            assert(piece@ =~= before.take(read_len as int));
            let read: usize = match self.filesystem.read_at(node, offset, piece) {
                Ok(read) => read,
                Err(error) => return Err(VfsError::Fs(error)),
            };
            if read > read_len {
                return Err(VfsError::Fs(FsError::Corrupt));
            }
            if read == 0 {
                return Ok(());
            }
            let ghost filled = piece@;
            assert(buffer@ =~= filled + before.skip(read_len as int));
            let part = slice_subrange(&buffer, 0, read);
            assert(part@ =~= filled.take(read as int));
            sink.take(part)?;
            offset = offset + read as u64;
        }
        Ok(())
    }
}

/// A file cut into pieces: each as long as the buffer, but for the last.
pub open spec fn pieces(contents: Seq<u8>) -> Seq<Seq<u8>>
    decreases contents.len(),
{
    if contents.len() == 0 {
        Seq::empty()
    } else {
        let n = chunk(contents.len() as int);
        seq![contents.take(n)] + pieces(contents.skip(n))
    }
}

/// Hands pieces to a sink, up to the first that it refuses.
pub open spec fn feed<T>(taking: Taking<T>, state: T, pieces: Seq<Seq<u8>>) -> (
    Result<(), VfsError>,
    T,
)
    decreases pieces.len(),
{
    if pieces.len() == 0 {
        (Ok(()), state)
    } else {
        let (taken, next) = taking(state, pieces[0]);
        match taken {
            Err(e) => (Err(e), next),
            Ok(()) => feed(taking, next, pieces.skip(1)),
        }
    }
}

/// As long as a file system is as `keeps` says, reading within a file gives its contents, and
/// the file system stays so.
pub open spec fn reads_back<F: FileSystem>(
    keeps: spec_fn(F::Model) -> bool,
    node: NodeId,
    contents: Seq<u8>,
) -> bool {
    forall|m: F::Model, offset: u64, dst: Seq<u8>|
        keeps(m) && 0 < dst.len() <= READ_BUFFER_BYTES && offset + dst.len() <= contents.len()
            ==> {
            let (read, after) = #[trigger] F::read_at_step(m, node, offset, dst);
            &&& read.result == Ok::<usize, FsError>(dst.len() as usize)
            &&& after == contents.subrange(offset as int, offset + dst.len())
            &&& keeps(read.model)
        }
}

proof fn lemma_deliver<F: FileSystem, T>(
    keeps: spec_fn(F::Model) -> bool,
    contents: Seq<u8>,
    m: F::Model,
    node: NodeId,
    offset: int,
    buffer: Seq<u8>,
    taking: Taking<T>,
    state: T,
)
    requires
        reads_back::<F>(keeps, node, contents),
        keeps(m),
        0 <= offset <= contents.len() <= u64::MAX,
        buffer.len() == READ_BUFFER_BYTES,
    ensures
        ({
            let (read, next) = deliver::<F, T>(
                m,
                node,
                offset,
                contents.len() as int,
                buffer,
                taking,
                state,
            );
            &&& (read.result, next) == feed(taking, state, pieces(contents.skip(offset)))
            &&& keeps(read.model)
        }),
    decreases contents.len() - offset,
{
    let rest = contents.skip(offset);
    if offset < contents.len() {
        let n = chunk(contents.len() - offset);
        let (read, piece) = F::read_at_step(m, node, offset as u64, buffer.take(n));
        assert(read.result == Ok::<usize, FsError>(n as usize));
        assert(piece.take(n) =~= rest.take(n));
        let (taken, next) = taking(state, rest.take(n));
        assert(pieces(rest)[0] == rest.take(n));
        assert(pieces(rest).skip(1) =~= pieces(rest.skip(n)));
        assert(rest.skip(n) =~= contents.skip(offset + n));
        if taken is Ok {
            lemma_deliver::<F, T>(
                keeps,
                contents,
                read.model,
                node,
                offset + n,
                piece + buffer.skip(n),
                taking,
                next,
            );
        }
    }
}

/// A regular file is handed to the sink in its pieces, one after the other, and its error is the
/// result where it refuses one; then it is handed nothing more.
pub proof fn law_a_file_is_handed_over_in_pieces<F: FileSystem, T>(
    keeps: spec_fn(F::Model) -> bool,
    contents: Seq<u8>,
    m: F::Model,
    cwd: Seq<Seq<u8>>,
    path: Seq<u8>,
    taking: Taking<T>,
    state: T,
)
    requires
        regular_file::<F>(m, cwd, path).result matches Ok((node, len)) && len == contents.len()
            && reads_back::<F>(keeps, node, contents),
        keeps(regular_file::<F>(m, cwd, path).model),
    ensures
        ({
            let (read, next) = read_file_step::<F, T>(m, cwd, path, taking, state);
            &&& (read.result, next) == feed(taking, state, pieces(contents))
            &&& keeps(read.model)
        }),
{
    let found = regular_file::<F>(m, cwd, path);
    lemma_deliver::<F, T>(
        keeps,
        contents,
        found.model,
        found.result->Ok_0.0,
        0,
        zeros(READ_BUFFER_BYTES as nat),
        taking,
        state,
    );
    assert(contents.skip(0) =~= contents);
}

/// The pieces of a file, put together, are the file. None of them is empty, and none is longer
/// than the buffer.
pub proof fn law_pieces_make_up_the_file(contents: Seq<u8>)
    ensures
        pieces(contents).flatten() == contents,
        forall|i: int|
            0 <= i < pieces(contents).len() ==> 0 < (#[trigger] pieces(contents)[i]).len()
                <= READ_BUFFER_BYTES,
        pieces(contents).len() == 0 <==> contents.len() == 0,
    decreases contents.len(),
{
    if contents.len() > 0 {
        let n = chunk(contents.len() as int);
        law_pieces_make_up_the_file(contents.skip(n));
        let all = pieces(contents);
        assert(all.drop_first() =~= pieces(contents.skip(n)));
        assert(all.first() == contents.take(n));
        assert(all.flatten() =~= contents);
        assert forall|i: int| 0 <= i < all.len() implies 0 < (#[trigger] all[i]).len()
            <= READ_BUFFER_BYTES by {
            if i > 0 {
                assert(all[i] == pieces(contents.skip(n))[i - 1]);
            }
        }
    } else {
        assert(pieces(contents).flatten() =~= contents);
    }
}

/// What is no regular file is not read: the sink is handed nothing.
pub proof fn law_only_regular_files_are_read<F: FileSystem, T>(
    m: F::Model,
    cwd: Seq<Seq<u8>>,
    path: Seq<u8>,
    taking: Taking<T>,
    state: T,
)
    requires
        ({
            let target = resolve_step::<F>(m, cwd, path);
            &&& target.result is Ok
            &&& F::metadata_step(target.model, target.result->Ok_0.node).result matches Ok(
                metadata,
            ) && metadata.kind != NodeKind::Regular
        }),
    ensures
        ({
            let (read, next) = read_file_step::<F, T>(m, cwd, path, taking, state);
            &&& read.result == Err::<(), _>(VfsError::NotRegularFile)
            &&& next == state
        }),
{
}

} // verus!
