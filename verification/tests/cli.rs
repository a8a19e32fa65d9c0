//! The command line.

use mmap_chunker_core::cli::{
    parse_delimiter_byte, parse_delimiter_hex, parse_parts, parse_source, parse_window,
    parse_worker, run, Argument, Command, CommandOption, PartitionRequest,
};
use mmap_chunker_core::source::{SourceMode, DEFAULT_WINDOW_BYTES, MIN_WINDOW_BYTES};

fn arg(text: &str) -> Argument {
    Argument::text(text)
}

fn args(texts: &[&str]) -> Vec<Argument> {
    texts.iter().map(|text| Argument::text(text)).collect()
}

fn refused(texts: &[&str]) -> String {
    run(&args(texts)).unwrap_err()
}

fn partition(texts: &[&str]) -> PartitionRequest {
    match run(&args(texts)).unwrap() {
        Command::Partition(request) => request,
        other => panic!("unexpected command {other:?}"),
    }
}

#[test]
fn parts_must_be_positive() {
    assert_eq!(parse_parts(&arg("1")), Ok(1));
    assert!(parse_parts(&arg("0")).is_err());
    assert!(parse_parts(&arg("nope")).is_err());
}

#[test]
fn worker_must_be_a_non_negative_integer() {
    assert_eq!(parse_worker(&arg("0")), Ok(0));
    assert_eq!(parse_worker(&arg("3")), Ok(3));
    assert!(parse_worker(&arg("-1")).is_err());
    assert!(parse_worker(&arg("nope")).is_err());
}

#[test]
fn delimiter_byte_accepts_only_decimal_u8_values() {
    assert_eq!(parse_delimiter_byte(&arg("0")), Ok(0));
    assert_eq!(parse_delimiter_byte(&arg("10")), Ok(10));
    assert_eq!(parse_delimiter_byte(&arg("000")), Ok(0));
    assert_eq!(parse_delimiter_byte(&arg("255")), Ok(255));
    assert!(parse_delimiter_byte(&arg("-1")).is_err());
    assert!(parse_delimiter_byte(&arg("256")).is_err());
    assert!(parse_delimiter_byte(&arg("0x0a")).is_err());
    assert!(parse_delimiter_byte(&arg("+10")).is_err());
    assert!(parse_delimiter_byte(&arg("nope")).is_err());
}

#[test]
fn delimiter_hex_accepts_even_length_hex_strings() {
    assert_eq!(parse_delimiter_hex(&arg("0a")), Ok(vec![0x0A]));
    assert_eq!(parse_delimiter_hex(&arg("0d0a")), Ok(vec![0x0D, 0x0A]));
    assert_eq!(
        parse_delimiter_hex(&arg("0D0A0d0a")),
        Ok(vec![0x0D, 0x0A, 0x0D, 0x0A])
    );
    assert_eq!(parse_delimiter_hex(&arg("00")), Ok(vec![0x00]));
    assert_eq!(parse_delimiter_hex(&arg("ffFF")), Ok(vec![0xFF, 0xFF]));
}

#[test]
fn delimiter_hex_rejects_invalid_forms() {
    assert!(parse_delimiter_hex(&arg("")).is_err());
    assert!(parse_delimiter_hex(&arg("0")).is_err());
    assert!(parse_delimiter_hex(&arg("0d0")).is_err());
    assert!(parse_delimiter_hex(&arg("0x0a")).is_err());
    assert!(parse_delimiter_hex(&arg("zz")).is_err());
    assert!(parse_delimiter_hex(&arg("0d 0a")).is_err());
    assert!(parse_delimiter_hex(&arg("-1")).is_err());
}

#[test]
fn delimiter_hex_rejects_a_sign_in_a_pair() {
    assert!(parse_delimiter_hex(&arg("+a")).is_err());
}

#[test]
fn values_that_are_not_text_are_refused() {
    let broken = Argument::inexact("1\u{fffd}");
    assert_eq!(
        parse_parts(&broken).unwrap_err(),
        "`--parts` must be a positive integer"
    );
    assert_eq!(
        parse_worker(&broken).unwrap_err(),
        "`--worker` must be a non-negative integer"
    );
    assert_eq!(
        parse_window(&broken).unwrap_err(),
        "`--window` must be a positive integer"
    );
    assert_eq!(
        parse_delimiter_byte(&broken).unwrap_err(),
        "`--delimiter-byte` must be a decimal byte in the range 0..255"
    );
    assert_eq!(
        parse_source(&broken).unwrap_err(),
        "invalid value for `--source`: `1\u{fffd}` (expected mmap, windowed, or pread)"
    );
    assert_eq!(
        parse_delimiter_hex(&broken).unwrap_err(),
        "invalid value for `--delimiter-hex`: `1\u{fffd}` (expected an even-length hex string, e.g. 0d0a)"
    );
}

#[test]
fn refused_values_are_named() {
    assert_eq!(
        parse_parts(&arg("x")).unwrap_err(),
        "invalid value for `--parts`: `x`"
    );
    assert_eq!(
        parse_parts(&arg("0")).unwrap_err(),
        "`--parts` must be greater than zero"
    );
    assert_eq!(parse_parts(&arg("+7")), Ok(7));
    assert_eq!(parse_parts(&arg("18446744073709551615")), Ok(usize::MAX));
    assert!(parse_parts(&arg("18446744073709551616")).is_err());
    assert_eq!(
        parse_worker(&arg("")).unwrap_err(),
        "invalid value for `--worker`: ``"
    );
    assert_eq!(
        parse_window(&arg("65535")).unwrap_err(),
        format!("`--window` must be at least {MIN_WINDOW_BYTES} bytes")
    );
    assert_eq!(parse_window(&arg("65536")), Ok(65536));
    assert_eq!(
        parse_window(&arg("big")).unwrap_err(),
        "invalid value for `--window`: `big`"
    );
    assert_eq!(
        parse_delimiter_byte(&arg("256")).unwrap_err(),
        "invalid value for `--delimiter-byte`: `256` (expected decimal byte 0..255)"
    );
    assert_eq!(parse_source(&arg("mmap")), Ok(SourceMode::Mmap));
    assert_eq!(parse_source(&arg("windowed")), Ok(SourceMode::Windowed));
    assert_eq!(parse_source(&arg("pread")), Ok(SourceMode::Pread));
    assert!(parse_source(&arg("Mmap")).is_err());
}

#[test]
fn help_and_version_stand_alone() {
    assert!(matches!(run(&args(&["--help"])), Ok(Command::Help)));
    assert!(matches!(run(&args(&["-h"])), Ok(Command::Help)));
    assert!(matches!(run(&args(&["--version"])), Ok(Command::Version)));
    assert!(matches!(run(&args(&["-V"])), Ok(Command::Version)));
    assert!(matches!(run(&args(&["partition", "-h"])), Ok(Command::Help)));
    assert!(matches!(
        run(&args(&["partition-files", "--help"])),
        Ok(Command::Help)
    ));
    assert_eq!(refused(&["--help", "x"]), "unknown command `--help`");
}

#[test]
fn commands_are_told_apart() {
    assert_eq!(refused(&[]), "missing command");
    assert_eq!(refused(&["split"]), "unknown command `split`");
}

#[test]
fn a_partition_has_defaults() {
    let request = partition(&["partition", "records.jsonl", "--parts", "8"]);
    assert_eq!(request.file, 1);
    assert_eq!(request.parts, 8);
    assert_eq!(request.delimiter, vec![0x0A]);
    assert_eq!(request.worker, None);
    assert_eq!(request.source, SourceMode::Mmap);
    assert_eq!(request.window, None);
    assert_eq!(request.planner(), None);
}

#[test]
fn a_partition_takes_options_in_any_order() {
    let request = partition(&[
        "partition",
        "--source",
        "windowed",
        "--window",
        "131072",
        "--worker",
        "3",
        "--parts",
        "4",
        "data.log",
        "--delimiter-hex",
        "0d0a",
    ]);
    assert_eq!(request.file, 9);
    assert_eq!(request.parts, 4);
    assert_eq!(request.delimiter, vec![0x0D, 0x0A]);
    assert_eq!(request.worker, Some(3));
    let options = request.planner().unwrap();
    assert_eq!(options.mode, SourceMode::Windowed);
    assert_eq!(options.window_bytes, 131072);

    let request = partition(&["partition", "f", "--parts", "1", "--source", "pread"]);
    let options = request.planner().unwrap();
    assert_eq!(options.mode, SourceMode::Pread);
    assert_eq!(options.window_bytes, DEFAULT_WINDOW_BYTES);
}

#[test]
fn an_argument_that_is_not_text_can_be_the_file() {
    let mut arguments = args(&["partition", "--parts", "2"]);
    arguments.push(Argument::inexact("caf\u{fffd}"));
    match run(&arguments).unwrap() {
        Command::Partition(request) => assert_eq!(request.file, 3),
        other => panic!("unexpected command {other:?}"),
    }
}

#[test]
fn each_broken_partition_is_named() {
    let p = "partition";
    assert_eq!(refused(&[p]), "missing FILE");
    assert_eq!(refused(&[p, "f"]), "missing required option `--parts`");
    assert_eq!(refused(&[p, "--parts", "2"]), "missing FILE");
    assert_eq!(refused(&[p, "f", "--parts"]), "missing value for `--parts`");
    assert_eq!(
        refused(&[p, "f", "--parts", "1", "--parts", "2"]),
        "duplicate option `--parts`"
    );
    assert_eq!(
        refused(&[p, "f", "--delimiter-byte", "1", "--delimiter-hex", "0a"]),
        "duplicate delimiter option (`--delimiter-byte` / `--delimiter-hex`)"
    );
    assert_eq!(
        refused(&[p, "f", "--worker", "1", "--worker", "1"]),
        "duplicate option `--worker`"
    );
    assert_eq!(
        refused(&[p, "f", "--source", "mmap", "--source", "mmap"]),
        "duplicate option `--source`"
    );
    assert_eq!(
        refused(&[p, "f", "--window", "65536", "--window", "65536"]),
        "duplicate option `--window`"
    );
    assert_eq!(refused(&[p, "f", "-x"]), "unexpected option `-x`");
    assert_eq!(refused(&[p, "f", "g"]), "unexpected argument `g`");
    assert_eq!(
        refused(&[p, "f", "--parts", "2", "--worker", "2"]),
        "`--worker` must be less than `--parts`"
    );
    assert_eq!(
        refused(&[p, "f", "--parts", "2", "--window", "65536"]),
        "`--window` requires `--source windowed`"
    );
}

#[test]
fn several_files_keep_their_order() {
    let command = run(&args(&[
        "partition-files",
        "b",
        "--parts",
        "3",
        "a",
        "--delimiter-byte",
        "0",
    ]))
    .unwrap();
    match command {
        Command::PartitionFiles(request) => {
            assert_eq!(request.files, vec![1, 4]);
            assert_eq!(request.parts, 3);
            assert_eq!(request.delimiter, 0);
        }
        other => panic!("unexpected command {other:?}"),
    }
}

#[test]
fn each_broken_list_of_files_is_named() {
    let p = "partition-files";
    assert_eq!(refused(&[p, "f"]), "missing required option `--parts`");
    assert_eq!(
        refused(&[p, "--parts", "2"]),
        "missing FILE (provide one or more ordered source paths)"
    );
    assert_eq!(
        refused(&[p, "--parts", "2", "--parts", "2"]),
        "duplicate option `--parts`"
    );
    assert_eq!(
        refused(&[p, "--delimiter-byte", "2", "--delimiter-byte", "2"]),
        "duplicate option `--delimiter-byte`"
    );
    assert_eq!(
        refused(&[p, "f", "--delimiter-byte"]),
        "missing value for `--delimiter-byte`"
    );
    assert_eq!(
        refused(&[p, "f", "--delimiter-hex", "0a"]),
        "unexpected option `--delimiter-hex`"
    );
    assert_eq!(refused(&[p, "f", "--worker", "0"]), "unexpected option `--worker`");
}

#[test]
fn options_have_names() {
    assert_eq!(CommandOption::Parts.as_str(), "--parts");
    assert_eq!(CommandOption::DelimiterByte.as_str(), "--delimiter-byte");
    assert_eq!(CommandOption::DelimiterHex.as_str(), "--delimiter-hex");
    assert_eq!(CommandOption::Worker.as_str(), "--worker");
    assert_eq!(CommandOption::Source.as_str(), "--source");
    assert_eq!(CommandOption::Window.as_str(), "--window");
}
