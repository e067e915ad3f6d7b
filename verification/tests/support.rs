use kvstore::bench_saver::{signed_line, source_checksum, to_hex};
use kvstore::process_handle::{poll_outcome, split_command_line, timeout_outcome, Error};
use kvstore::text::split_words;

#[test]
fn words_of_a_line() {
    assert_eq!(split_words("  cargo run\t--release  "), vec!["cargo", "run", "--release"]);
    assert_eq!(split_words(""), Vec::<String>::new());
    assert_eq!(split_words(" \n "), Vec::<String>::new());
    assert_eq!(split_words("a"), vec!["a"]);
}

#[test]
fn command_line_splits_into_program_and_arguments() {
    let (path, args) = split_command_line("cargo run --release --bin server").unwrap();
    assert_eq!(path, "cargo");
    assert_eq!(args, vec!["run", "--release", "--bin", "server"]);
    let (path, args) = split_command_line("server").unwrap();
    assert_eq!(path, "server");
    assert!(args.is_empty());
}

#[test]
fn empty_command_line_is_a_spawn_error() {
    match split_command_line("   ") {
        Err(Error::Spawn(e)) => {
            assert_eq!(e.kind(), std::io::ErrorKind::InvalidInput);
            assert_eq!(e.to_string(), "Empty command line");
        }
        _ => panic!("an empty command line must fail to spawn"),
    }
}

#[test]
fn wait_outcomes() {
    assert!(matches!(poll_outcome::<i32>(Ok(Some(3))), Some(Ok(3))));
    assert!(poll_outcome::<i32>(Ok(None)).is_none());
    let e = std::io::Error::new(std::io::ErrorKind::Other, "x");
    assert!(matches!(poll_outcome::<i32>(Err(e)), Some(Err(Error::Wait(_)))));
    assert!(matches!(timeout_outcome(Ok(())), Error::ServerExitTimeout));
    let e = std::io::Error::new(std::io::ErrorKind::Other, "y");
    assert!(matches!(timeout_outcome(Err(e)), Error::Kill(_)));
}

#[test]
fn hex_text() {
    assert_eq!(to_hex(&[]), "");
    assert_eq!(to_hex(&[0, 15, 16, 255, 0xab]), "000f10ffab");
}

#[test]
fn checksum_of_a_source() {
    assert_eq!(source_checksum("abc"), "ba7816bf8f01cfea414140de5dae2223b00361a396177a9cb410ff61f20015ad");
    assert_eq!(source_checksum(""), "e3b0c44298fc1c149afbf4c8996fb92427ae41e4649b934ca495991b7852b855");
}

#[test]
fn signed_result_line() {
    let line = signed_line("ab", "c");
    assert_eq!(line, "c ba7816bf8f01cfea414140de5dae2223b00361a396177a9cb410ff61f20015ad\n");
}
