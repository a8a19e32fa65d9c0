//! What command lines are read as.

use crate::cli::{
    all_hex, command_task, delimiter_byte_value, delimiter_hex_value, files_option_of, option_of,
    parts_value, source_value, starts_with_dash, window_value, worker_value, Arg, CommandOption,
    FilesState, FilesTask, PartitionState, PartitionTask, Task,
};
use crate::digits::{law_decimal_value_is_positional, law_digits_are_read, writes_decimal};
use crate::source::SourceMode;
use crate::text::{hex_digit, hex_text, is_digit, law_hex_round_trip};
use vstd::prelude::*;

verus! {

/// An argument that is valid text.
pub open spec fn given(text: Seq<char>) -> Arg {
    Arg { shown: text, exact: true }
}

/// Law: the digits of a number are taken as that number by the options that take
/// one, where it is in their range, and refused where it is not: at least one
/// part, any worker, a window of at least 65536 bytes, a delimiter byte of at
/// most 255.
pub proof fn law_numbers_are_taken(s: Seq<char>, n: int)
    requires
        writes_decimal(s, n),
    ensures
        parts_value(given(s)) is Ok <==> 1 <= n <= usize::MAX,
        parts_value(given(s)) matches Ok(v) ==> v == n,
        worker_value(given(s)) is Ok <==> n <= usize::MAX,
        worker_value(given(s)) matches Ok(v) ==> v == n,
        window_value(given(s)) is Ok <==> 65536 <= n <= usize::MAX,
        window_value(given(s)) matches Ok(v) ==> v == n,
        delimiter_byte_value(given(s)) is Ok <==> n <= 255,
        delimiter_byte_value(given(s)) matches Ok(v) ==> v == n,
{
    law_digits_are_read(s, n, usize::MAX as nat);
    law_decimal_value_is_positional(s, n);
}

/// Law: an argument that is not valid text is no value of any option.
pub proof fn law_invalid_text_is_no_value(value: Arg)
    requires
        !value.exact,
    ensures
        parts_value(value) is Err,
        worker_value(value) is Err,
        source_value(value) is Err,
        window_value(value) is Err,
        delimiter_byte_value(value) is Err,
        delimiter_hex_value(value) is Err,
{
}

/// Law: a delimiter byte is written in digits alone, without a sign.
pub proof fn law_delimiter_byte_has_digits_alone(value: Arg, i: int)
    requires
        delimiter_byte_value(value) is Ok,
        0 <= i < value.shown.len(),
    ensures
        '0' <= value.shown[i] <= '9',
{
    assert(is_digit(value.shown[i]));
}

/// Law: the hexadecimal text of a delimiter is taken as that delimiter; the empty
/// one, and a text with an odd number of characters or with one that is no
/// hexadecimal digit, are refused.
pub proof fn law_hexadecimal_delimiter_is_taken(bytes: Seq<u8>, s: Seq<char>, i: int)
    ensures
        bytes.len() > 0 ==> delimiter_hex_value(given(hex_text(bytes))) == Ok::<
            Seq<u8>,
            Seq<char>,
        >(bytes),
        s.len() % 2 == 1 || s.len() == 0 ==> delimiter_hex_value(given(s)) is Err,
        0 <= i < s.len() && hex_digit(s[i]) is None ==> delimiter_hex_value(given(s)) is Err,
{
    law_hex_round_trip(bytes);
    lemma_hex_text(bytes);
    if 0 <= i < s.len() && hex_digit(s[i]) is None {
        assert(!all_hex(s));
    }
}

proof fn lemma_hex_text(bytes: Seq<u8>)
    ensures
        all_hex(hex_text(bytes)),
        hex_text(bytes).len() == 2 * bytes.len(),
    decreases bytes.len(),
{
    if bytes.len() > 0 {
        let front = hex_text(bytes.drop_last());
        lemma_hex_text(bytes.drop_last());
        let s = hex_text(bytes);
        assert forall|i: int| 0 <= i < s.len() implies hex_digit(#[trigger] s[i]) is Some by {
            if i < front.len() {
                assert(s[i] == front[i]);
            }
        }
    }
}

/// The names of the options differ from one another.
proof fn lemma_names()
    ensures
        "--parts"@.len() == 7,
        "--delimiter-byte"@.len() == 16,
        "--delimiter-hex"@.len() == 15,
        "--worker"@.len() == 8,
        "--source"@.len() == 8,
        "--window"@.len() == 8,
        "--worker"@[2] == 'w' && "--worker"@[3] == 'o',
        "--source"@[2] == 's',
        "--window"@[2] == 'w' && "--window"@[3] == 'i',
        "mmap"@.len() == 4,
        "windowed"@.len() == 8,
        "pread"@.len() == 5,
        "partition"@.len() == 9,
        "partition-files"@.len() == 15,
        "--help"@.len() == 6,
        "--version"@.len() == 9,
        "--version"@[0] == '-',
        "-h"@.len() == 2,
        "-V"@.len() == 2,
        "partition"@[0] == 'p',
        starts_with_dash("--parts"@),
        starts_with_dash("--delimiter-byte"@),
        starts_with_dash("--delimiter-hex"@),
        starts_with_dash("--worker"@),
        starts_with_dash("--source"@),
        starts_with_dash("--window"@),
        starts_with_dash("--help"@),
        starts_with_dash("-h"@),
{
    reveal_strlit("--parts");
    reveal_strlit("--delimiter-byte");
    reveal_strlit("--delimiter-hex");
    reveal_strlit("--worker");
    reveal_strlit("--source");
    reveal_strlit("--window");
    reveal_strlit("mmap");
    reveal_strlit("windowed");
    reveal_strlit("pread");
    reveal_strlit("partition");
    reveal_strlit("partition-files");
    reveal_strlit("--help");
    reveal_strlit("--version");
    reveal_strlit("-h");
    reveal_strlit("-V");
}

/// Law: an option is found by its name and by nothing else, and a mode of reading
/// likewise.
pub proof fn law_options_are_found_by_name(option: CommandOption, arg: Arg)
    ensures
        option_of(given(option.name())) == Some(option),
        option_of(arg) matches Some(found) ==> arg == given(found.name()),
        source_value(given("mmap"@)) == Ok::<SourceMode, Seq<char>>(SourceMode::Mmap),
        source_value(given("windowed"@)) == Ok::<SourceMode, Seq<char>>(SourceMode::Windowed),
        source_value(given("pread"@)) == Ok::<SourceMode, Seq<char>>(SourceMode::Pread),
        source_value(arg) matches Ok(mode) ==> arg == given(
            match mode {
                SourceMode::Mmap => "mmap"@,
                SourceMode::Windowed => "windowed"@,
                SourceMode::Pread => "pread"@,
            },
        ),
{
    lemma_names();
}

/// Law: the order of two options does not matter.
pub proof fn law_options_commute(
    state: PartitionState,
    a: CommandOption,
    b: CommandOption,
    x: Arg,
    y: Arg,
)
    requires
        a != b,
        !(a.is_delimiter() && b.is_delimiter()),
        state.set(a, x) is Ok,
        state.set(b, y) is Ok,
    ensures
        state.set(a, x)->Ok_0.set(b, y) is Ok,
        state.set(a, x)->Ok_0.set(b, y) == state.set(b, y)->Ok_0.set(a, x),
        state.set(a, x)->Ok_0.has(a),
        state.set(a, x)->Ok_0.has(b) == state.has(b),
{
}

/// Law: with a file and a number of parts alone, `partition` plans records that
/// end in a newline, maps the file whole and prints every partition, whichever of
/// the two comes first.
pub proof fn law_partition_defaults(file: Arg, digits: Seq<char>, n: nat)
    requires
        !starts_with_dash(file.shown),
        writes_decimal(digits, n as int),
        1 <= n <= usize::MAX,
    ensures
        command_task(
            seq![given("partition"@), file, given("--parts"@), given(digits)],
        ) == Ok::<Task, Seq<char>>(
            Task::Partition(
                PartitionTask {
                    file: 1,
                    parts: n,
                    delimiter: seq![10u8],
                    worker: None,
                    source: SourceMode::Mmap,
                    window: None,
                },
            ),
        ),
        command_task(
            seq![given("partition"@), given("--parts"@), given(digits), file],
        ) == Ok::<Task, Seq<char>>(
            Task::Partition(
                PartitionTask {
                    file: 3,
                    parts: n,
                    delimiter: seq![10u8],
                    worker: None,
                    source: SourceMode::Mmap,
                    window: None,
                },
            ),
        ),
{
    lemma_names();
    law_numbers_are_taken(digits, n as int);
    reveal_with_fuel(PartitionState::after_all, 4);
    assert(option_of(file) is None);
}

/// Law: every option of `partition` is read as given.
pub proof fn law_partition_options_are_read(
    file: Arg,
    parts: (Seq<char>, nat),
    worker: (Seq<char>, nat),
    window: (Seq<char>, nat),
    delimiter: Seq<u8>,
)
    requires
        !starts_with_dash(file.shown),
        writes_decimal(parts.0, parts.1 as int),
        writes_decimal(worker.0, worker.1 as int),
        writes_decimal(window.0, window.1 as int),
        1 <= parts.1 <= usize::MAX,
        worker.1 < parts.1,
        65536 <= window.1 <= usize::MAX,
        delimiter.len() > 0,
    ensures
        command_task(
            seq![
                given("partition"@),
                file,
                given("--parts"@),
                given(parts.0),
                given("--worker"@),
                given(worker.0),
                given("--delimiter-hex"@),
                given(hex_text(delimiter)),
                given("--source"@),
                given("windowed"@),
                given("--window"@),
                given(window.0),
            ],
        ) == Ok::<Task, Seq<char>>(
            Task::Partition(
                PartitionTask {
                    file: 1,
                    parts: parts.1,
                    delimiter,
                    worker: Some(worker.1),
                    source: SourceMode::Windowed,
                    window: Some(window.1),
                },
            ),
        ),
{
    lemma_names();
    law_numbers_are_taken(parts.0, parts.1 as int);
    law_numbers_are_taken(worker.0, worker.1 as int);
    law_numbers_are_taken(window.0, window.1 as int);
    law_hexadecimal_delimiter_is_taken(delimiter, Seq::empty(), 0);
    reveal_with_fuel(PartitionState::after_all, 8);
    assert(option_of(file) is None);
}

/// Law: a worker that is none of the parts is refused, and so is a window without
/// a windowed source; a file and a number of parts are owed.
pub proof fn law_inconsistent_options_are_refused(state: PartitionState)
    ensures
        state.request() is Ok <==> {
            &&& state.file is Some
            &&& state.parts is Some
            &&& state.worker matches Some(worker) ==> worker < state.parts->0
            &&& state.window is Some ==> state.source == SourceMode::Windowed
        },
        state.request() matches Ok(task) ==> {
            &&& state.file == Some(task.file)
            &&& state.parts == Some(task.parts)
            &&& state.delimiter == task.delimiter
            &&& state.worker == task.worker
            &&& state.source == task.source
            &&& state.window == task.window
        },
{
}

/// Law: an option that was given before is refused, and so is one without a
/// value, an unknown one, and a second file.
pub proof fn law_unexpected_arguments_are_refused(state: PartitionState, args: Seq<Arg>, i: int)
    requires
        0 <= i < args.len(),
    ensures
        option_of(args[i]) matches Some(option) && state.has(option) ==> state.after(
            args,
            i,
        ) is Err,
        option_of(args[i]) is Some && i + 1 == args.len() ==> state.after(args, i) is Err,
        option_of(args[i]) is None && starts_with_dash(args[i].shown) ==> state.after(
            args,
            i,
        ) is Err,
        option_of(args[i]) is None && state.file is Some ==> state.after(args, i) is Err,
{
}

/// The arguments of `partition-files` from `i` on, all of them files.
proof fn lemma_files_are_collected(state: FilesState, args: Seq<Arg>, i: int)
    requires
        0 <= i <= args.len(),
        forall|k: int| i <= k < args.len() ==> !starts_with_dash((#[trigger] args[k]).shown),
    ensures
        state.after_all(args, i) == Ok::<FilesState, Seq<char>>(
            FilesState {
                files: state.files + Seq::new((args.len() - i) as nat, |k: int| i + k),
                ..state
            },
        ),
    decreases args.len() - i,
{
    lemma_names();
    if i < args.len() {
        let next = FilesState { files: state.files.push(i), ..state };
        assert(!starts_with_dash(args[i].shown));
        assert(files_option_of(args[i]) is None);
        lemma_files_are_collected(next, args, i + 1);
        assert(next.files + Seq::new((args.len() - (i + 1)) as nat, |k: int| i + 1 + k)
            =~= state.files + Seq::new((args.len() - i) as nat, |k: int| i + k));
    } else {
        assert(state.files + Seq::new(0, |k: int| i + k) =~= state.files);
    }
}

/// Law: `partition-files` takes its files in the order in which they are given,
/// however many they are, and plans records that end in a newline unless told
/// otherwise.
pub proof fn law_files_are_taken_in_order(
    digits: Seq<char>,
    n: nat,
    byte_digits: Seq<char>,
    byte: u8,
    files: Seq<Arg>,
)
    requires
        writes_decimal(digits, n as int),
        1 <= n <= usize::MAX,
        writes_decimal(byte_digits, byte as int),
        files.len() > 0,
        forall|k: int| 0 <= k < files.len() ==> !starts_with_dash((#[trigger] files[k]).shown),
    ensures
        command_task(
            seq![given("partition-files"@), given("--parts"@), given(digits)] + files,
        ) == Ok::<Task, Seq<char>>(
            Task::PartitionFiles(
                FilesTask {
                    files: Seq::new(files.len(), |k: int| 3 + k),
                    parts: n,
                    delimiter: 10,
                },
            ),
        ),
        command_task(
            seq![
                given("partition-files"@),
                given("--parts"@),
                given(digits),
                given("--delimiter-byte"@),
                given(byte_digits),
            ] + files,
        ) == Ok::<Task, Seq<char>>(
            Task::PartitionFiles(
                FilesTask {
                    files: Seq::new(files.len(), |k: int| 5 + k),
                    parts: n,
                    delimiter: byte,
                },
            ),
        ),
{
    lemma_names();
    law_numbers_are_taken(digits, n as int);
    law_numbers_are_taken(byte_digits, byte as int);
    let start = FilesState::start();
    let counted = FilesState { parts: Some(n), ..start };
    let a = seq![given("partition-files"@), given("--parts"@), given(digits)] + files;
    assert forall|k: int| 3 <= k < a.len() implies !starts_with_dash((#[trigger] a[k]).shown) by {
        assert(a[k] == files[k - 3]);
    }
    lemma_files_are_collected(counted, a, 3);
    assert(a[1] == given("--parts"@) && a[2] == given(digits));
    assert(start.after(a, 1) == Ok::<(FilesState, int), Seq<char>>((counted, 3)));
    assert(start.files + Seq::new((a.len() - 3) as nat, |k: int| 3 + k) =~= Seq::new(
        files.len(),
        |k: int| 3 + k,
    ));
    let b = seq![
        given("partition-files"@),
        given("--parts"@),
        given(digits),
        given("--delimiter-byte"@),
        given(byte_digits),
    ] + files;
    let set = FilesState { delimiter: byte, delimiter_seen: true, ..counted };
    assert forall|k: int| 5 <= k < b.len() implies !starts_with_dash((#[trigger] b[k]).shown) by {
        assert(b[k] == files[k - 5]);
    }
    lemma_files_are_collected(set, b, 5);
    assert(b[1] == given("--parts"@) && b[2] == given(digits));
    assert(b[3] == given("--delimiter-byte"@) && b[4] == given(byte_digits));
    assert(start.after(b, 1) == Ok::<(FilesState, int), Seq<char>>((counted, 3)));
    assert(counted.after(b, 3) == Ok::<(FilesState, int), Seq<char>>((set, 5)));
    assert(start.files + Seq::new((b.len() - 5) as nat, |k: int| 5 + k) =~= Seq::new(
        files.len(),
        |k: int| 5 + k,
    ));
    reveal_with_fuel(FilesState::after_all, 3);
}

/// Law: a mapped file is planned through the mapping; any other source is planned
/// with a scan buffer of one MiB, and with the window that was given or one of
/// 64 MiB.
pub proof fn law_planner_of_a_task(task: PartitionTask)
    ensures
        task.source == SourceMode::Mmap <==> task.planner() is None,
        task.planner() matches Some(options) ==> options.mode == task.source
            && options.scan_buffer_bytes == 1048576,
        task.planner() matches Some(options) ==> (match task.window {
            Some(window) => window <= usize::MAX ==> options.window_bytes == window,
            None => options.window_bytes == 67108864,
        }),
{
}

/// Law: help is asked for alone, or alone behind a command; the version is asked
/// for alone.
pub proof fn law_help_is_asked_for_alone(args: Seq<Arg>)
    ensures
        command_task(args) == Ok::<Task, Seq<char>>(Task::Help) <==> {
            let asks = |arg: Arg| arg == given("--help"@) || arg == given("-h"@);
            ||| args.len() == 1 && asks(args[0])
            ||| args.len() == 2 && (args[0] == given("partition"@) || args[0] == given(
                "partition-files"@,
            )) && asks(args[1])
        },
        command_task(args) == Ok::<Task, Seq<char>>(Task::Version) <==> args.len() == 1 && (args[0]
            == given("--version"@) || args[0] == given("-V"@)),
        args.len() == 0 ==> command_task(args) is Err,
        args.len() > 1 && args[0] != given("partition"@) && args[0] != given("partition-files"@)
            ==> command_task(args) is Err,
{
    lemma_names();
    reveal_strlit("-h");
    reveal_strlit("-V");
    assert("-h"@[1] == 'h' && "-V"@[1] == 'V');
}

} // verus!
