use relay_core::fs::{Name, NameError};
use relay_core::heap::Heap;
use relay_core::shell::commands::{command_from_in, parse_command_in};
use relay_core::shell::parser::tokenize_in;
use relay_core::shell::{Command, ParseError};
use relay_core::vfs::path::{cwd_path_in, Cwd};

#[test]
fn a_heap_remembers_a_refusal() {
    let mut heap = Heap::new();
    let mut values = vec![1u64];
    assert!(heap.reserve(&mut values, 8));
    assert!(!heap.was_refused());
    assert!(!heap.reserve(&mut values, usize::MAX));
    assert!(heap.was_refused());
    assert!(heap.reserve(&mut values, 1));
    assert!(heap.was_refused());
    assert_eq!(values, [1]);
}

#[test]
fn names_and_paths_are_made_in_a_heap() {
    let mut heap = Heap::new();
    let name = Name::new_in(b"docs", &mut heap).unwrap();
    assert_eq!(Name::new_in(b"a/b", &mut heap), Err(NameError::InvalidByte));
    let cwd = Cwd {
        components: vec![name],
    };
    assert_eq!(cwd_path_in(&cwd, &mut heap), Ok(b"/docs".to_vec()));
    assert!(!heap.was_refused());
}

#[test]
fn lines_are_split_in_a_heap() {
    let mut heap = Heap::new();
    let words = tokenize_in("echo 'a b' \"\"", &mut heap).unwrap();
    assert_eq!(words, ["echo", "a b", ""]);
    assert!(matches!(
        command_from_in(words, &mut heap),
        Ok(Some(Command::Echo { .. }))
    ));
    assert!(matches!(
        tokenize_in("'", &mut heap),
        Err(ParseError::UnterminatedQuote)
    ));
    assert!(matches!(
        parse_command_in("\u{1}", &mut heap),
        Err(ParseError::InvalidByte)
    ));
    assert!(matches!(parse_command_in("  ", &mut heap), Ok(None)));
    assert!(!heap.was_refused());
}
