//! What the commands are for: what is shown, and what is left in the files.
use vstd::prelude::*;
use vstd::utf8::encode_utf8;

use crate::block::BlockDevice;
use crate::console::number::decimal;
use crate::ext2::Ext2;
use crate::ext2::contents::{
    contents, file_len, healthy_file, law_truncate_sets_the_length, law_write_changes_the_contents,
    lemma_same_blocks, lemma_write_at,
};
use crate::ext2::inode::metadata_step;
use crate::ext2::mutation::{truncate_step, write_at_step};
use crate::ext2::volume::Volume;
use crate::fs::{EntryView, Metadata, NodeId, NodeKind};
use crate::vfs::{FileSystem, FsError, VfsError};
use crate::vfs::change::{create_file_step, open_step};
use crate::vfs::path::{joined, rendered};
use crate::vfs::read::regular_file;
use crate::vfs::resolve::{list_step, resolve_step};

use super::commands::{
    entry_line, execute_step, ls_from, spaced, CommandView, ShellOutcome, ShellState,
};
use super::parser::{split_from, words_of, ParseError};

verus! {

/// The line for an entry: its name, a space, what it is, a space, its length in digits, and the end
/// of the line.
pub open spec fn line_for(entry: EntryView, metadata: Metadata) -> Seq<u8> {
    let kind = match metadata.kind {
        NodeKind::Regular => encode_utf8("file"@),
        NodeKind::Directory => encode_utf8("dir"@),
    };
    entry.name + seq![0x20u8] + kind + seq![0x20u8] + decimal(metadata.len) + seq![0x0au8]
}

/// The lines for entries, one for each and in their order.
pub open spec fn lines_for(entries: Seq<EntryView>, metadata: Seq<Metadata>) -> Seq<Seq<u8>> {
    Seq::new(entries.len(), |i: int| line_for(entries[i], metadata[i]))
}

/// The entries are looked at one after the other, each in the state that the one before left.
pub open spec fn looked_at<F: FileSystem>(
    models: Seq<F::Model>,
    entries: Seq<EntryView>,
    metadata: Seq<Metadata>,
) -> bool {
    &&& models.len() == entries.len() + 1
    &&& metadata.len() == entries.len()
    &&& forall|i: int|
        0 <= i < entries.len() ==> {
            let looked = F::metadata_step(#[trigger] models[i], entries[i].node);
            looked.result == Ok::<_, FsError>(metadata[i]) && looked.model == models[i + 1]
        }
}

/// The lines from an entry on, behind a text.
proof fn lemma_lines<F: FileSystem>(
    s: ShellState<F::Model>,
    entries: Seq<EntryView>,
    from: int,
    models: Seq<F::Model>,
    metadata: Seq<Metadata>,
) -> (found: (Seq<F::Model>, Seq<Metadata>))
    requires
        0 <= from <= entries.len(),
        looked_at::<F>(models, entries.take(from), metadata),
        models.last() == s.model,
        ls_from::<F>(s, entries, from).0 is Ok,
    ensures
        looked_at::<F>(found.0, entries, found.1),
        found.0.take(from + 1) == models,
        found.1.take(from) == metadata,
        found.0.last() == ls_from::<F>(s, entries, from).1.model,
        ls_from::<F>(s, entries, from).1.text == s.text + lines_for(
            entries,
            found.1,
        ).skip(from).flatten(),
        ls_from::<F>(s, entries, from).1.cwd == s.cwd,
    decreases entries.len() - from,
{
    if from >= entries.len() {
        assert(entries.take(from) =~= entries);
        assert(models.take(from + 1) =~= models);
        assert(metadata.take(from) =~= metadata);
        assert(lines_for(entries, metadata).skip(from) =~= Seq::empty());
        assert(s.text + Seq::<u8>::empty() =~= s.text);
        (models, metadata)
    } else {
        let entry = entries[from];
        let read = F::metadata_step(s.model, entry.node);
        let told = read.result->Ok_0;
        let more = models.push(read.model);
        let known = metadata.push(told);
        assert(looked_at::<F>(more, entries.take(from + 1), known)) by {
            assert forall|i: int| 0 <= i < from + 1 implies {
                let looked = F::metadata_step(#[trigger] more[i], entries.take(from + 1)[i].node);
                looked.result == Ok::<_, FsError>(known[i]) && looked.model == more[i + 1]
            } by {
                if i < from {
                    assert(more[i] == models[i]);
                    assert(entries.take(from)[i] == entries[i]);
                } else {
                    assert(more[i] == s.model);
                }
            }
        }
        let line = line_for(entry, told);
        let next = ShellState {
            model: read.model,
            text: s.text + entry_line(entry.name, told.kind, told.len),
            ..s
        };
        assert(entry_line(entry.name, told.kind, told.len) =~= line);
        assert(ls_from::<F>(s, entries, from) == ls_from::<F>(next, entries, from + 1));
        let found = lemma_lines::<F>(next, entries, from + 1, more, known);
        let lines = lines_for(entries, found.1);
        assert(found.1[from] == told) by {
            assert(found.1.take(from + 1)[from] == told);
        }
        assert(lines.skip(from).first() == line);
        assert(lines.skip(from).drop_first() =~= lines.skip(from + 1));
        assert(s.text + line + lines.skip(from + 1).flatten() =~= s.text + (line + lines.skip(
            from + 1,
        ).flatten()));
        assert(found.0.take(from + 1) =~= models) by {
            assert(found.0.take(from + 2).take(from + 1) =~= found.0.take(from + 1));
            assert(more.take(from + 1) =~= models);
        }
        assert(found.1.take(from) =~= metadata) by {
            assert(found.1.take(from + 1).take(from) =~= found.1.take(from));
            assert(known.take(from) =~= metadata);
        }
        found
    }
}

/// `ls` that succeeds writes one line for each entry of the listing, in its order, with the entry's
/// name, kind and length, and nothing else.
pub proof fn law_ls_shows_every_entry<F: FileSystem>(
    s: ShellState<F::Model>,
    path: Option<Seq<u8>>,
)
    requires
        execute_step::<F>(s, CommandView::Ls { path }).0 is Ok,
    ensures
        ({
            let listed = list_step::<F>(s.model, s.cwd, path);
            let (r, t) = execute_step::<F>(s, CommandView::Ls { path });
            &&& listed.result is Ok
            &&& r == Ok::<_, VfsError>(ShellOutcome::Continue)
            &&& exists|models: Seq<F::Model>, metadata: Seq<Metadata>|
                {
                    &&& #[trigger] looked_at::<F>(models, listed.result->Ok_0, metadata)
                    &&& models[0] == listed.model
                    &&& models.last() == t.model
                    &&& t.text == s.text + lines_for(listed.result->Ok_0, metadata).flatten()
                }
        }),
{
    let listed = list_step::<F>(s.model, s.cwd, path);
    let entries = listed.result->Ok_0;
    let start = ShellState { model: listed.model, ..s };
    let models = seq![listed.model];
    let none = Seq::<Metadata>::empty();
    assert(looked_at::<F>(models, entries.take(0), none));
    let (models, metadata) = lemma_lines::<F>(start, entries, 0, models, none);
    assert(models[0] == models.take(1)[0]);
    assert(lines_for(entries, metadata).skip(0) =~= lines_for(entries, metadata));
}

/// The number that digits stand for.
pub open spec fn value_of(digits: Seq<u8>) -> int
    decreases digits.len(),
{
    if digits.len() == 0 {
        0
    } else {
        10 * value_of(digits.drop_last()) + (digits.last() - 0x30)
    }
}

/// A number is shown in decimal digits that stand for it, without a zero in front of another digit.
pub proof fn law_digits_stand_for_the_number(n: u64)
    ensures
        value_of(decimal(n)) == n,
        decimal(n).len() >= 1,
        decimal(n)[0] == 0x30 ==> n == 0 && decimal(n).len() == 1,
        forall|i: int| 0 <= i < decimal(n).len() ==> 0x30 <= #[trigger] decimal(n)[i] <= 0x39,
    decreases n,
{
    reveal_with_fuel(value_of, 2);
    if n >= 10 {
        law_digits_stand_for_the_number(n / 10);
        assert(decimal(n).drop_last() =~= decimal(n / 10));
        assert(decimal(n)[0] == decimal(n / 10)[0]);
        assert forall|i: int| 0 <= i < decimal(n).len() implies 0x30 <= #[trigger] decimal(n)[i]
            <= 0x39 by {
            if i < decimal(n / 10).len() {
                assert(decimal(n)[i] == decimal(n / 10)[i]);
            }
        }
    } else {
        assert(decimal(n).drop_last() =~= Seq::empty());
    }
}

/// Words that are joined stand behind each other, each but the last with a space behind it.
pub proof fn law_joined_words_keep_their_order(words: Seq<Seq<u8>>)
    ensures
        words.len() == 0 ==> spaced(words) == Seq::<u8>::empty(),
        words.len() > 0 ==> spaced(words).push(0x20) == words.map_values(
            |word: Seq<u8>| word.push(0x20),
        ).flatten(),
    decreases words.len(),
{
    if words.len() > 0 {
        let front = words.drop_last();
        let spread = |word: Seq<u8>| word.push(0x20u8);
        law_joined_words_keep_their_order(front);
        let all = words.map_values(spread);
        assert(all =~= front.map_values(spread).push(words.last().push(0x20)));
        front.map_values(spread).lemma_flatten_push(words.last().push(0x20));
        if words.len() == 1 {
            assert(front.map_values(spread).flatten() =~= Seq::empty());
            assert(spaced(words) == words[0]);
            assert(spaced(words).push(0x20) =~= all.flatten());
        } else {
            assert(spaced(words).push(0x20) =~= spaced(front).push(0x20) + words.last().push(0x20));
        }
    }
}

/// `echo` writes its words with one space between them, and the end of the line.
pub proof fn law_echo_writes_its_words<F: FileSystem>(s: ShellState<F::Model>, text: Seq<Seq<u8>>)
    ensures
        execute_step::<F>(s, CommandView::Echo { text }) == (
            Ok::<_, VfsError>(ShellOutcome::Continue),
            ShellState { text: s.text + (spaced(text) + seq![0x0au8]), ..s },
        ),
{
    assert(spaced(text).push(0x0a) =~= spaced(text) + seq![0x0au8]);
}

/// `pwd` writes the path of the working directory, and the end of the line: a slash and a name for
/// each directory on the way from the root, or a slash alone.
pub proof fn law_pwd_writes_the_path<F: FileSystem>(s: ShellState<F::Model>)
    ensures
        execute_step::<F>(s, CommandView::Pwd) == (
            Ok::<_, VfsError>(ShellOutcome::Continue),
            ShellState { text: s.text + (rendered(s.cwd) + seq![0x0au8]), ..s },
        ),
        s.cwd.len() == 0 ==> rendered(s.cwd) == seq![0x2fu8],
        s.cwd.len() > 0 ==> rendered(s.cwd) == s.cwd.map_values(
            |name: Seq<u8>| seq![0x2fu8] + name,
        ).flatten(),
{
    assert(rendered(s.cwd).push(0x0a) =~= rendered(s.cwd) + seq![0x0au8]);
    if s.cwd.len() > 0 {
        lemma_rendered(s.cwd);
    }
}

proof fn lemma_rendered(names: Seq<Seq<u8>>)
    ensures
        joined(names) == names.map_values(
            |name: Seq<u8>| seq![0x2fu8] + name,
        ).flatten(),
    decreases names.len(),
{
    let headed = |name: Seq<u8>| seq![0x2fu8] + name;
    if names.len() > 0 {
        let front = names.drop_last();
        lemma_rendered(front);
        assert(names.map_values(headed) =~= front.map_values(headed).push(headed(names.last())));
        front.map_values(headed).lemma_flatten_push(headed(names.last()));
        assert(joined(names) =~= joined(front) + headed(
            names.last(),
        ));
    } else {
        assert(names.map_values(headed) =~= Seq::empty());
    }
}

/// A word that needs no quotes: it is not empty, and holds neither a space nor a quote.
pub open spec fn is_plain(word: Seq<u8>) -> bool {
    &&& word.len() > 0
    &&& forall|i: int|
        0 <= i < word.len() ==> 0x21 <= #[trigger] word[i] <= 0x7e && word[i] != 0x22 && word[i]
            != 0x27
}

proof fn lemma_plain_word(
    line: Seq<u8>,
    at: int,
    word: Seq<u8>,
    done: int,
    words: Seq<Seq<u8>>,
)
    requires
        is_plain(word),
        0 <= done <= word.len(),
        0 <= at - done,
        at - done + word.len() <= line.len(),
        line.subrange(at - done, at - done + word.len()) == word,
    ensures
        split_from(
            line,
            at,
            None,
            if done == 0 {
                None
            } else {
                Some(word.take(done))
            },
            words,
        ) == split_from(line, at - done + word.len(), None, Some(word), words),
    decreases word.len() - done,
{
    if done < word.len() {
        let byte = word[done];
        assert(line[at] == byte) by {
            assert(line.subrange(at - done, at - done + word.len())[done] == line[at]);
        }
        assert(word.take(done + 1) =~= word.take(done).push(byte));
        if done == 0 {
            assert(word.take(1) =~= seq![byte]);
        }
        lemma_plain_word(line, at + 1, word, done + 1, words);
    } else {
        assert(word.take(done) =~= word);
    }
}

proof fn lemma_plain_words(words: Seq<Seq<u8>>, n: int)
    requires
        0 < n <= words.len(),
        forall|i: int| 0 <= i < words.len() ==> is_plain(#[trigger] words[i]),
    ensures
        ({
            let line = spaced(words);
            let end = spaced(words.take(n)).len() as int;
            &&& end <= line.len()
            &&& line.take(end) == spaced(words.take(n))
            &&& n < words.len() ==> end < line.len() && line[end] == 0x20
            &&& n == words.len() ==> end == line.len()
        }),
    decreases words.len() - n,
{
    let line = spaced(words);
    if n == words.len() {
        assert(words.take(n) =~= words);
        assert(line.take(line.len() as int) =~= line);
    } else {
        lemma_plain_words(words, n + 1);
        let longer = words.take(n + 1);
        assert(longer.drop_last() =~= words.take(n));
        let part = spaced(words.take(n));
        assert(spaced(longer) == part.push(0x20) + words[n]);
        let end = spaced(longer).len() as int;
        assert(line.take(part.len() as int) =~= line.take(end).take(part.len() as int));
        assert(spaced(longer).take(part.len() as int) =~= part);
        assert(line[part.len() as int] == line.take(end)[part.len() as int]);
    }
}

proof fn lemma_split_plain(words: Seq<Seq<u8>>, n: int)
    requires
        0 < n <= words.len(),
        forall|i: int| 0 <= i < words.len() ==> is_plain(#[trigger] words[i]),
    ensures
        words_of(spaced(words)) == split_from(
            spaced(words),
            spaced(words.take(n)).len() as int,
            None,
            Some(words[n - 1]),
            words.take(n - 1),
        ),
    decreases n,
{
    let line = spaced(words);
    lemma_plain_words(words, n);
    assert(words.take(n).drop_last() =~= words.take(n - 1));
    let end = spaced(words.take(n)).len() as int;
    let word = words[n - 1];
    if n == 1 {
        assert(words.take(1)[0] == word);
        assert(line.subrange(0, word.len() as int) =~= line.take(end));
        assert(words.take(0) =~= Seq::empty());
        lemma_plain_word(line, 0, word, 0, Seq::empty());
    } else {
        lemma_split_plain(words, n - 1);
        lemma_plain_words(words, n - 1);
        let before = spaced(words.take(n - 1)).len() as int;
        assert(words.take(n - 1).push(word) =~= words.take(n));
        assert(words.take(n - 2).push(words[n - 2]) =~= words.take(n - 1));
        assert(line.subrange(before + 1, end) =~= word) by {
            assert(line.take(end) == spaced(words.take(n - 1)).push(0x20) + word);
            assert forall|k: int| 0 <= k < word.len() implies line[before + 1 + k] == word[k] by {
                assert(line.take(end)[before + 1 + k] == word[k]);
            }
        }
        lemma_plain_word(line, before + 1, word, 0, words.take(n - 1));
    }
}

/// Words that need no quotes are split again as they were joined.
pub proof fn law_joined_words_are_split_again(words: Seq<Seq<u8>>)
    requires
        forall|i: int| 0 <= i < words.len() ==> is_plain(#[trigger] words[i]),
    ensures
        words_of(spaced(words)) == Ok::<_, ParseError>(words),
{
    if words.len() > 0 {
        let n = words.len() as int;
        lemma_split_plain(words, n);
        assert(words.take(n) =~= words);
        assert(words.take(n - 1).push(words[n - 1]) =~= words);
    } else {
        assert(words =~= Seq::empty());
    }
}

/// Writing a file opens it, cuts it to nothing, and writes at its start.
proof fn lemma_write_command<F: FileSystem>(
    s: ShellState<F::Model>,
    path: Seq<u8>,
    text: Seq<u8>,
)
    requires
        execute_step::<F>(s, CommandView::Write { path, text }).0 is Ok,
    ensures
        ({
            let t = execute_step::<F>(s, CommandView::Write { path, text }).1;
            let opened = open_step::<F>(s.model, s.cwd, path);
            let node = opened.result->Ok_0.0;
            let cut = F::truncate_step(opened.model, node, 0);
            let written = F::write_at_step(cut.model, node, 0, text);
            &&& opened.result is Ok
            &&& cut.result is Ok
            &&& written.result is Ok
            &&& t.model == written.model
            &&& t.text == s.text && t.cwd == s.cwd
        }),
{
}

/// Adding to a file opens it, and writes at the length that it was found to have.
proof fn lemma_append_command<F: FileSystem>(
    s: ShellState<F::Model>,
    path: Seq<u8>,
    text: Seq<u8>,
)
    requires
        execute_step::<F>(s, CommandView::Append { path, text }).0 is Ok,
    ensures
        ({
            let t = execute_step::<F>(s, CommandView::Append { path, text }).1;
            let opened = open_step::<F>(s.model, s.cwd, path);
            let (node, len) = opened.result->Ok_0;
            let written = F::write_at_step(opened.model, node, len, text);
            &&& opened.result is Ok
            &&& written.result is Ok
            &&& t.model == written.model
            &&& t.text == s.text && t.cwd == s.cwd
        }),
{
}

/// The length of a file that was there is what the file system says of it.
proof fn lemma_opened<F: FileSystem>(m: F::Model, cwd: Seq<Seq<u8>>, path: Seq<u8>) -> (before:
    F::Model)
    requires
        create_file_step::<F>(m, cwd, path).result == Err::<NodeId, _>(
            VfsError::Fs(FsError::AlreadyExists),
        ),
        open_step::<F>(m, cwd, path).result is Ok,
    ensures
        ({
            let opened = open_step::<F>(m, cwd, path);
            let (node, len) = opened.result->Ok_0;
            let looked = F::metadata_step(before, node);
            &&& looked.result matches Ok(metadata) && metadata.len == len && metadata.kind
                == NodeKind::Regular
            &&& looked.model == opened.model
        }),
{
    let created = create_file_step::<F>(m, cwd, path);
    let target = resolve_step::<F>(created.model, cwd, path);
    assert(regular_file::<F>(created.model, cwd, path).result is Ok);
    target.model
}

/// A file that is cut to nothing and then written at its start holds what was written.
proof fn lemma_rewritten(v: Volume, node: NodeId, text: Seq<u8>)
    requires
        healthy_file(v, node),
        truncate_step(v, node, 0).result is Ok,
        write_at_step(truncate_step(v, node, 0).volume, node, 0, text).result is Ok,
    ensures
        contents(
            write_at_step(truncate_step(v, node, 0).volume, node, 0, text).volume,
            node,
        ) == text,
{
    let cut = truncate_step(v, node, 0).volume;
    law_truncate_sets_the_length(v, node, 0);
    lemma_added(cut, node, 0, text);
    assert(contents(cut, node) =~= Seq::empty());
    assert(Seq::<u8>::empty() + text =~= text);
}

/// A file that is written at its end holds what it held and what was written.
proof fn lemma_added(v: Volume, node: NodeId, len: u64, text: Seq<u8>)
    requires
        healthy_file(v, node),
        len == file_len(v, node),
        write_at_step(v, node, len, text).result is Ok,
    ensures
        contents(write_at_step(v, node, len, text).volume, node) == contents(v, node) + text,
{
    let w = write_at_step(v, node, len, text).volume;
    law_write_changes_the_contents(v, node, len, text);
    if text.len() == 0 {
        lemma_write_at(v, node, len, text);
        lemma_same_blocks(v, v.ticked(), node);
    }
    assert(contents(w, node) =~= contents(v, node) + text);
}

/// What a file system says of a node's length is the length of its file.
proof fn lemma_metadata_len(v: Volume, node: NodeId)
    requires
        metadata_step(v, node).result is Ok,
    ensures
        metadata_step(v, node).result->Ok_0.len == file_len(metadata_step(v, node).volume, node),
{
}

/// What a file system reports through its interface.
proof fn lemma_seen<D: BlockDevice>(v: Volume, node: NodeId, len: u64, text: Seq<u8>)
    ensures
        ({
            let looked = <Ext2<D> as FileSystem>::metadata_step(v, node);
            looked.result is Ok ==> metadata_step(v, node).result is Ok && looked.result->Ok_0
                == metadata_step(v, node).result->Ok_0 && looked.model == metadata_step(
                v,
                node,
            ).volume
        }),
        ({
            let cut = <Ext2<D> as FileSystem>::truncate_step(v, node, len);
            cut.result is Ok ==> truncate_step(v, node, len).result is Ok && cut.model
                == truncate_step(v, node, len).volume
        }),
        ({
            let written = <Ext2<D> as FileSystem>::write_at_step(v, node, len, text);
            written.result is Ok ==> write_at_step(v, node, len, text).result is Ok
                && written.model == write_at_step(v, node, len, text).volume
        }),
{
}

/// A file that is given new contents holds them and nothing else.
pub proof fn law_write_gives_the_file_these_bytes<D: BlockDevice>(
    s: ShellState<Volume>,
    path: Seq<u8>,
    text: Seq<u8>,
)
    requires
        execute_step::<Ext2<D>>(s, CommandView::Write { path, text }).0 is Ok,
        ({
            let opened = open_step::<Ext2<D>>(s.model, s.cwd, path);
            opened.result matches Ok((node, _)) ==> healthy_file(opened.model, node)
        }),
    ensures
        ({
            let opened = open_step::<Ext2<D>>(s.model, s.cwd, path);
            let (r, t) = execute_step::<Ext2<D>>(s, CommandView::Write { path, text });
            &&& opened.result matches Ok((node, _)) && contents(t.model, node) == text
            &&& t.text == s.text && t.cwd == s.cwd
        }),
{
    lemma_write_command::<Ext2<D>>(s, path, text);
    let opened = open_step::<Ext2<D>>(s.model, s.cwd, path);
    let node = opened.result->Ok_0.0;
    lemma_seen::<D>(opened.model, node, 0, text);
    lemma_seen::<D>(truncate_step(opened.model, node, 0).volume, node, 0, text);
    lemma_rewritten(opened.model, node, text);
}

/// A file that was there and is added to holds what it held, and the new bytes behind.
pub proof fn law_append_adds_at_the_end<D: BlockDevice>(
    s: ShellState<Volume>,
    path: Seq<u8>,
    text: Seq<u8>,
)
    requires
        execute_step::<Ext2<D>>(s, CommandView::Append { path, text }).0 is Ok,
        create_file_step::<Ext2<D>>(s.model, s.cwd, path).result == Err::<NodeId, _>(
            VfsError::Fs(FsError::AlreadyExists),
        ),
        ({
            let opened = open_step::<Ext2<D>>(s.model, s.cwd, path);
            opened.result matches Ok((node, _)) ==> healthy_file(opened.model, node)
        }),
    ensures
        ({
            let opened = open_step::<Ext2<D>>(s.model, s.cwd, path);
            let (r, t) = execute_step::<Ext2<D>>(s, CommandView::Append { path, text });
            &&& opened.result matches Ok((node, _)) && contents(t.model, node) == contents(
                opened.model,
                node,
            ) + text
            &&& t.text == s.text && t.cwd == s.cwd
        }),
{
    lemma_append_command::<Ext2<D>>(s, path, text);
    let before = lemma_opened::<Ext2<D>>(s.model, s.cwd, path);
    let opened = open_step::<Ext2<D>>(s.model, s.cwd, path);
    let (node, len) = opened.result->Ok_0;
    lemma_seen::<D>(before, node, len, text);
    lemma_metadata_len(before, node);
    lemma_seen::<D>(opened.model, node, len, text);
    lemma_added(opened.model, node, len, text);
}

} // verus!
