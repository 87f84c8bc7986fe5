//! Splitting a line into words.
use vstd::prelude::*;
use vstd::utf8::encode_utf8;

use crate::console::line_editor::printable;
use crate::heap::Heap;
use crate::text::{ascii, ascii_string, text_bytes};

verus! {

/// Why a line is no command.
#[derive(Clone, Copy, Debug, PartialEq, Eq)]
pub enum ParseError {
    UnknownCommand,
    /// The command takes another number of arguments.
    Arity { command: &'static str },
    UnterminatedQuote,
    /// The line holds a byte that is not printable ASCII.
    InvalidByte,
    Allocation,
}

pub const SPACE: u8 = 0x20;

pub const QUOTE: u8 = 0x27;

pub const DOUBLE_QUOTE: u8 = 0x22;

/// The words so far, with the one that is being read.
pub open spec fn closed_words(words: Seq<Seq<u8>>, word: Option<Seq<u8>>) -> Seq<Seq<u8>> {
    match word {
        Some(word) => words.push(word),
        None => words,
    }
}

/// A word with one more byte.
pub open spec fn extended(word: Option<Seq<u8>>, byte: u8) -> Seq<u8> {
    match word {
        Some(word) => word.push(byte),
        None => seq![byte],
    }
}

/// Splits a line from `at` on at its spaces. What stands between two quotes of one kind belongs to
/// a word, spaces and the other kind of quote included, and a word can be made of several parts.
/// `quote` is the quote that is open, and `word` the word that is being read.
pub open spec fn split_from(
    line: Seq<u8>,
    at: int,
    quote: Option<u8>,
    word: Option<Seq<u8>>,
    words: Seq<Seq<u8>>,
) -> Result<Seq<Seq<u8>>, ParseError>
    decreases line.len() - at,
{
    if at >= line.len() {
        if quote is Some {
            Err(ParseError::UnterminatedQuote)
        } else {
            Ok(closed_words(words, word))
        }
    } else {
        let byte = line[at];
        if !printable(byte) {
            Err(ParseError::InvalidByte)
        } else if quote == Some(byte) {
            split_from(line, at + 1, None, word, words)
        } else if quote is Some {
            split_from(line, at + 1, quote, Some(extended(word, byte)), words)
        } else if byte == SPACE {
            split_from(line, at + 1, None, None, closed_words(words, word))
        } else if byte == QUOTE || byte == DOUBLE_QUOTE {
            split_from(
                line,
                at + 1,
                Some(byte),
                Some(
                    match word {
                        Some(word) => word,
                        None => Seq::empty(),
                    },
                ),
                words,
            )
        } else {
            split_from(line, at + 1, None, Some(extended(word, byte)), words)
        }
    }
}

/// The words of a line.
pub open spec fn words_of(line: Seq<u8>) -> Result<Seq<Seq<u8>>, ParseError> {
    split_from(line, 0, None, None, Seq::empty())
}

/// The bytes of some strings.
pub open spec fn texts(strings: Seq<String>) -> Seq<Seq<u8>> {
    strings.map_values(|text: String| text_bytes(text))
}

/// All words are ASCII.
pub open spec fn ascii_words(words: Seq<Seq<u8>>) -> bool {
    forall|i: int| 0 <= i < words.len() ==> ascii(#[trigger] words[i])
}

/// Splitting a line from `at` on takes memory: before an error, a byte is put into a word, or a word
/// ends. `in_word` says whether a word is being read.
pub open spec fn splits_from(line: Seq<u8>, at: int, quote: Option<u8>, in_word: bool) -> bool
    decreases line.len() - at,
{
    if at >= line.len() {
        quote is None && in_word
    } else {
        let byte = line[at];
        if !printable(byte) {
            false
        } else if quote == Some(byte) {
            splits_from(line, at + 1, None, in_word)
        } else if quote is Some {
            true
        } else if byte == SPACE {
            in_word || splits_from(line, at + 1, None, false)
        } else if byte == QUOTE || byte == DOUBLE_QUOTE {
            splits_from(line, at + 1, Some(byte), true)
        } else {
            true
        }
    }
}

/// Splitting a line takes memory.
pub open spec fn takes_room(line: Seq<u8>) -> bool {
    splits_from(line, 0, None, false)
}

/// Appends a word, if there is room for it.
fn put_word(tokens: &mut Vec<String>, word: Vec<u8>, room: bool) -> (r: Result<(), ParseError>)
    requires
        ascii(word@),
        ascii_words(texts(old(tokens)@)),
    ensures
        ascii_words(texts(final(tokens)@)),
        if room {
            r is Ok && texts(final(tokens)@) == texts(old(tokens)@).push(word@)
        } else {
            r == Err::<(), ParseError>(ParseError::Allocation) && final(tokens)@ == old(tokens)@
        },
{
    if !room {
        return Err(ParseError::Allocation);
    }
    let ghost before = texts(tokens@);
    tokens.push(ascii_string(word));
    assert(texts(tokens@) =~= before.push(word@));
    Ok(())
}

/// Appends a word, unless the heap refuses to hold it.
fn push_word(tokens: &mut Vec<String>, word: Vec<u8>, heap: &mut Heap) -> (r: Result<
    (),
    ParseError,
>)
    requires
        !old(heap).refused(),
        ascii(word@),
        ascii_words(texts(old(tokens)@)),
    ensures
        ascii_words(texts(final(tokens)@)),
        match r {
            Ok(()) => !final(heap).refused() && texts(final(tokens)@) == texts(old(tokens)@).push(
                word@,
            ),
            Err(e) => final(heap).refused() && e == ParseError::Allocation && final(tokens)@ == old(
                tokens,
            )@,
        },
{
    let room = heap.reserve(tokens, 1);
    put_word(tokens, word, room)
}

/// Splits a line into words. Only a line that is split before an error can fail for want of memory.
pub fn tokenize(line: &str) -> (r: Result<Vec<String>, ParseError>)
    ensures
        match r {
            Ok(tokens) => words_of(encode_utf8(line@)) == Ok::<Seq<Seq<u8>>, ParseError>(
                texts(tokens@),
            ) && ascii_words(texts(tokens@)),
            Err(ParseError::Allocation) => takes_room(encode_utf8(line@)),
            Err(e) => words_of(encode_utf8(line@)) == Err::<Seq<Seq<u8>>, ParseError>(e),
        },
{
    tokenize_in(line, &mut Heap::new())
}

/// Splits a line into words, in memory from a heap. It fails for want of memory exactly where the
/// heap refuses.
pub fn tokenize_in(line: &str, heap: &mut Heap) -> (r: Result<Vec<String>, ParseError>)
    requires
        !old(heap).refused(),
    ensures
        match r {
            Ok(tokens) => {
                &&& !final(heap).refused()
                &&& words_of(encode_utf8(line@)) == Ok::<Seq<Seq<u8>>, ParseError>(texts(tokens@))
                &&& ascii_words(texts(tokens@))
                &&& tokens@.len() > 0 ==> takes_room(encode_utf8(line@))
            },
            Err(e) => if final(heap).refused() {
                e == ParseError::Allocation && takes_room(encode_utf8(line@))
            } else {
                words_of(encode_utf8(line@)) == Err::<Seq<Seq<u8>>, ParseError>(e) && e
                    != ParseError::Allocation
            },
        },
{
    let bytes = line.as_bytes();
    let mut tokens: Vec<String> = Vec::new();
    let mut word: Vec<u8> = Vec::new();
    let mut in_word = false;
    let mut quote: Option<u8> = None;
    assert(texts(tokens@) =~= Seq::<Seq<u8>>::empty());
    let mut at: usize = 0;
    while at < bytes.len()
        invariant
            at <= bytes@.len(),
            bytes@ == encode_utf8(line@),
            ascii(word@),
            !in_word ==> word@ == Seq::<u8>::empty(),
            ascii_words(texts(tokens@)),
            quote is Some ==> in_word,
            !heap.refused(),
            tokens@.len() > 0 ==> takes_room(bytes@),
            splits_from(bytes@, at as int, quote, in_word) ==> takes_room(bytes@),
            words_of(bytes@) == split_from(
                bytes@,
                at as int,
                quote,
                if in_word {
                    Some(word@)
                } else {
                    None
                },
                texts(tokens@),
            ),
        decreases bytes@.len() - at,
    {
        let byte: u8 = bytes[at];
        if byte < 0x20 || byte > 0x7e {
            return Err(ParseError::InvalidByte);
        }
        let closes = match quote {
            Some(open) => open == byte,
            None => false,
        };
        if closes {
            quote = None;
        } else if quote.is_none() && byte == SPACE {
            if in_word {
                push_word(&mut tokens, word, heap)?;
                word = Vec::new();
                in_word = false;
            }
        } else if quote.is_none() && (byte == QUOTE || byte == DOUBLE_QUOTE) {
            quote = Some(byte);
            in_word = true;
        } else {
            if !heap.reserve(&mut word, 1) {
                return Err(ParseError::Allocation);
            }
            let ghost before = word@;
            word.push(byte);
            assert(!in_word ==> word@ =~= seq![byte]);
            assert forall|i: int| 0 <= i < word@.len() implies #[trigger] word@[i] < 0x80 by {
                if i < before.len() {
                    assert(before[i] < 0x80);
                }
            }
            in_word = true;
        }
        at = at + 1;
    }
    if quote.is_some() {
        return Err(ParseError::UnterminatedQuote);
    }
    if in_word {
        push_word(&mut tokens, word, heap)?;
    }
    Ok(tokens)
}

proof fn lemma_printable(
    line: Seq<u8>,
    at: int,
    quote: Option<u8>,
    word: Option<Seq<u8>>,
    words: Seq<Seq<u8>>,
)
    requires
        0 <= at <= line.len(),
    ensures
        split_from(line, at, quote, word, words) == Err::<Seq<Seq<u8>>, _>(ParseError::InvalidByte)
            <==> exists|i: int| at <= i < line.len() && !(0x20 <= #[trigger] line[i] <= 0x7E),
    decreases line.len() - at,
{
    if at < line.len() && printable(line[at]) {
        let byte = line[at];
        if quote == Some(byte) {
            lemma_printable(line, at + 1, None, word, words);
        } else if quote is Some {
            lemma_printable(line, at + 1, quote, Some(extended(word, byte)), words);
        } else if byte == SPACE {
            lemma_printable(line, at + 1, None, None, closed_words(words, word));
        } else if byte == QUOTE || byte == DOUBLE_QUOTE {
            let begun = match word {
                Some(word) => word,
                None => Seq::empty(),
            };
            lemma_printable(line, at + 1, Some(byte), Some(begun), words);
        } else {
            lemma_printable(line, at + 1, None, Some(extended(word, byte)), words);
        }
    }
}

/// A line is refused for a byte exactly if it holds one that cannot be printed.
pub proof fn law_only_printable_bytes_are_read(line: Seq<u8>)
    ensures
        words_of(line) == Err::<Seq<Seq<u8>>, _>(ParseError::InvalidByte) <==> exists|i: int|
            0 <= i < line.len() && !(0x20 <= #[trigger] line[i] <= 0x7E),
{
    lemma_printable(line, 0, None, None, Seq::empty());
}

proof fn lemma_quoted(line: Seq<u8>, at: int, quote: u8, words: Seq<Seq<u8>>)
    requires
        1 <= at < line.len(),
        line.last() == quote,
        0x20 <= quote <= 0x7E,
        forall|i: int|
            1 <= i < line.len() - 1 ==> 0x20 <= #[trigger] line[i] <= 0x7E && line[i] != quote,
    ensures
        split_from(line, at, Some(quote), Some(line.subrange(1, at)), words) == Ok::<_, ParseError>(
            words.push(line.subrange(1, line.len() - 1)),
        ),
    decreases line.len() - at,
{
    if at < line.len() - 1 {
        assert(line.subrange(1, at).push(line[at]) =~= line.subrange(1, at + 1));
        lemma_quoted(line, at + 1, quote, words);
    } else {
        reveal_with_fuel(split_from, 2);
    }
}

/// What stands between two quotes of one kind is one word, whatever it holds but that quote; it
/// may be empty.
pub proof fn law_quotes_keep_a_word_together(word: Seq<u8>, quote: u8)
    requires
        quote == 0x22 || quote == 0x27,
        forall|i: int|
            0 <= i < word.len() ==> 0x20 <= #[trigger] word[i] <= 0x7E && word[i] != quote,
    ensures
        words_of(seq![quote] + word + seq![quote]) == Ok::<_, ParseError>(seq![word]),
        words_of(seq![quote] + word) == Err::<Seq<Seq<u8>>, _>(ParseError::UnterminatedQuote),
{
    let line = seq![quote] + word + seq![quote];
    assert(line.subrange(1, 1) =~= Seq::empty());
    assert(line.subrange(1, line.len() - 1) =~= word);
    lemma_quoted(line, 1, quote, Seq::empty());
    assert(Seq::<Seq<u8>>::empty().push(word) =~= seq![word]);
    let open = seq![quote] + word;
    lemma_open(open, 1, quote, Seq::empty());
}

proof fn lemma_open(line: Seq<u8>, at: int, quote: u8, word: Seq<u8>)
    requires
        1 <= at <= line.len(),
        forall|i: int|
            1 <= i < line.len() ==> 0x20 <= #[trigger] line[i] <= 0x7E && line[i] != quote,
    ensures
        split_from(line, at, Some(quote), Some(word), Seq::empty()) == Err::<Seq<Seq<u8>>, _>(
            ParseError::UnterminatedQuote,
        ),
    decreases line.len() - at,
{
    if at < line.len() {
        lemma_open(line, at + 1, quote, word.push(line[at]));
    }
}

} // verus!
