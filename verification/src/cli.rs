//! The command line: arguments, options and what they ask for.

use crate::source::{
    PlannerOptions, SourceMode, DEFAULT_SCAN_BUFFER_BYTES, DEFAULT_WINDOW_BYTES, MIN_WINDOW_BYTES,
};
use crate::text::{
    all_digits, chars_of, dec_value, decode_hex, hex_bytes, hex_digit, hex_digit_value, hex_pair,
    is_digit, parse_unsigned, read_unsigned, same_text,
};
use vstd::prelude::*;

verus! {

/// One argument as the system passed it.
#[derive(Debug, Clone, PartialEq, Eq)]
pub struct Argument {
    /// The argument as text, with replacement characters where it is not
    /// valid text.
    pub shown: String,
    /// Whether `shown` is the argument itself.
    pub exact: bool,
}

/// An argument in specifications.
pub struct Arg {
    /// The argument as shown in messages.
    pub shown: Seq<char>,
    /// Whether it is valid text.
    pub exact: bool,
}

impl Arg {
    /// The argument is this text.
    pub open spec fn is(self, text: Seq<char>) -> bool {
        self.exact && self.shown == text
    }

    /// The argument asks for help.
    pub open spec fn is_help(self) -> bool {
        self.is("--help"@) || self.is("-h"@)
    }

    /// The argument asks for the version.
    pub open spec fn is_version(self) -> bool {
        self.is("--version"@) || self.is("-V"@)
    }
}

impl View for Argument {
    type V = Arg;

    open spec fn view(&self) -> Arg {
        Arg { shown: self.shown@, exact: self.exact }
    }
}

/// The arguments in specifications.
pub open spec fn args_of(arguments: Seq<Argument>) -> Seq<Arg> {
    arguments.map_values(|a: Argument| a@)
}

impl Argument {
    /// An argument that is valid text.
    pub fn text(text: &str) -> (r: Self)
        ensures
            r@ == (Arg { shown: text@, exact: true }),
    {
        Argument { shown: text.to_string(), exact: true }
    }

    /// An argument that is not valid text, as shown with replacement
    /// characters.
    pub fn inexact(shown: &str) -> (r: Self)
        ensures
            r@ == (Arg { shown: shown@, exact: false }),
    {
        Argument { shown: shown.to_string(), exact: false }
    }

    fn is(&self, text: &str) -> (r: bool)
        ensures
            r == self@.is(text@),
    {
        self.exact && same_text(self.shown.as_str(), text)
    }

    fn is_help(&self) -> (r: bool)
        ensures
            r == self@.is_help(),
    {
        self.is("--help") || self.is("-h")
    }

    fn is_version(&self) -> (r: bool)
        ensures
            r == self@.is_version(),
    {
        self.is("--version") || self.is("-V")
    }
}

/// A text between two others.
fn around(before: &str, middle: &str, after: &str) -> (r: String)
    ensures
        r@ == before@ + middle@ + after@,
{
    let mut out = before.to_string();
    out.push_str(middle);
    out.push_str(after);
    out
}

/// The value of `--parts`: a positive number.
pub open spec fn parts_value(value: Arg) -> Result<nat, Seq<char>> {
    if !value.exact {
        Err("`--parts` must be a positive integer"@)
    } else {
        match read_unsigned(value.shown, usize::MAX as nat) {
            None => Err("invalid value for `--parts`: `"@ + value.shown + "`"@),
            Some(n) => if n == 0 {
                Err("`--parts` must be greater than zero"@)
            } else {
                Ok(n)
            },
        }
    }
}

/// The value of `--worker`: a number.
pub open spec fn worker_value(value: Arg) -> Result<nat, Seq<char>> {
    if !value.exact {
        Err("`--worker` must be a non-negative integer"@)
    } else {
        match read_unsigned(value.shown, usize::MAX as nat) {
            None => Err("invalid value for `--worker`: `"@ + value.shown + "`"@),
            Some(n) => Ok(n),
        }
    }
}

/// The value of `--source`: the name of a mode.
pub open spec fn source_value(value: Arg) -> Result<SourceMode, Seq<char>> {
    if value.is("mmap"@) {
        Ok(SourceMode::Mmap)
    } else if value.is("windowed"@) {
        Ok(SourceMode::Windowed)
    } else if value.is("pread"@) {
        Ok(SourceMode::Pread)
    } else {
        Err(
            "invalid value for `--source`: `"@ + value.shown
                + "` (expected mmap, windowed, or pread)"@,
        )
    }
}

/// The value of `--window`: a number of bytes that a window can have.
pub open spec fn window_value(value: Arg) -> Result<nat, Seq<char>> {
    if !value.exact {
        Err("`--window` must be a positive integer"@)
    } else {
        match read_unsigned(value.shown, usize::MAX as nat) {
            None => Err("invalid value for `--window`: `"@ + value.shown + "`"@),
            Some(n) => if n < MIN_WINDOW_BYTES {
                Err("`--window` must be at least 65536 bytes"@)
            } else {
                Ok(n)
            },
        }
    }
}

/// The value of `--delimiter-byte`: decimal digits of a number below 256.
pub open spec fn delimiter_byte_value(value: Arg) -> Result<u8, Seq<char>> {
    if !value.exact {
        Err("`--delimiter-byte` must be a decimal byte in the range 0..255"@)
    } else if value.shown.len() > 0 && all_digits(value.shown) && dec_value(value.shown) <= 255 {
        Ok(dec_value(value.shown) as u8)
    } else {
        Err(
            "invalid value for `--delimiter-byte`: `"@ + value.shown
                + "` (expected decimal byte 0..255)"@,
        )
    }
}

/// Every character is a hexadecimal digit.
pub open spec fn all_hex(s: Seq<char>) -> bool {
    forall|i: int| 0 <= i < s.len() ==> hex_digit(#[trigger] s[i]) is Some
}

/// The value of `--delimiter-hex`: at least one pair of hexadecimal digits.
pub open spec fn delimiter_hex_value(value: Arg) -> Result<Seq<u8>, Seq<char>> {
    if value.exact && value.shown.len() > 0 && value.shown.len() % 2 == 0 && all_hex(value.shown) {
        Ok(hex_bytes(value.shown)->0)
    } else {
        Err(
            "invalid value for `--delimiter-hex`: `"@ + value.shown
                + "` (expected an even-length hex string, e.g. 0d0a)"@,
        )
    }
}

/// What an executable number result says.
pub open spec fn number_result(r: Result<usize, String>) -> Result<nat, Seq<char>> {
    match r {
        Ok(n) => Ok(n as nat),
        Err(message) => Err(message@),
    }
}

fn parse_number(value: &Argument) -> (r: Option<usize>)
    ensures
        match r {
            Some(n) => read_unsigned(value@.shown, usize::MAX as nat) == Some(n as nat),
            None => read_unsigned(value@.shown, usize::MAX as nat) is None,
        },
{
    let chars = chars_of(value.shown.as_str());
    match parse_unsigned(chars.as_slice(), usize::MAX as u128) {
        Some(n) => Some(n as usize),
        None => None,
    }
}

/// Read the value of `--parts`.
pub fn parse_parts(value: &Argument) -> (r: Result<usize, String>)
    ensures
        number_result(r) == parts_value(value@),
{
    if !value.exact {
        return Err("`--parts` must be a positive integer".to_string());
    }
    match parse_number(value) {
        Some(n) => if n == 0 {
            Err("`--parts` must be greater than zero".to_string())
        } else {
            Ok(n)
        },
        None => Err(around("invalid value for `--parts`: `", value.shown.as_str(), "`")),
    }
}

/// Read the value of `--worker`.
pub fn parse_worker(value: &Argument) -> (r: Result<usize, String>)
    ensures
        number_result(r) == worker_value(value@),
{
    if !value.exact {
        return Err("`--worker` must be a non-negative integer".to_string());
    }
    match parse_number(value) {
        Some(n) => Ok(n),
        None => Err(around("invalid value for `--worker`: `", value.shown.as_str(), "`")),
    }
}

/// Read the value of `--source`.
pub fn parse_source(value: &Argument) -> (r: Result<SourceMode, String>)
    ensures
        match r {
            Ok(mode) => source_value(value@) == Ok::<SourceMode, Seq<char>>(mode),
            Err(message) => source_value(value@) == Err::<SourceMode, Seq<char>>(message@),
        },
{
    if value.is("mmap") {
        Ok(SourceMode::Mmap)
    } else if value.is("windowed") {
        Ok(SourceMode::Windowed)
    } else if value.is("pread") {
        Ok(SourceMode::Pread)
    } else {
        Err(
            around(
                "invalid value for `--source`: `",
                value.shown.as_str(),
                "` (expected mmap, windowed, or pread)",
            ),
        )
    }
}

/// Read the value of `--window`.
pub fn parse_window(value: &Argument) -> (r: Result<usize, String>)
    ensures
        number_result(r) == window_value(value@),
{
    if !value.exact {
        return Err("`--window` must be a positive integer".to_string());
    }
    match parse_number(value) {
        Some(n) => if n < MIN_WINDOW_BYTES {
            Err("`--window` must be at least 65536 bytes".to_string())
        } else {
            Ok(n)
        },
        None => Err(around("invalid value for `--window`: `", value.shown.as_str(), "`")),
    }
}

/// Read the value of `--delimiter-byte`.
pub fn parse_delimiter_byte(value: &Argument) -> (r: Result<u8, String>)
    ensures
        match r {
            Ok(byte) => delimiter_byte_value(value@) == Ok::<u8, Seq<char>>(byte),
            Err(message) => delimiter_byte_value(value@) == Err::<u8, Seq<char>>(message@),
        },
{
    if !value.exact {
        return Err("`--delimiter-byte` must be a decimal byte in the range 0..255".to_string());
    }
    let chars = chars_of(value.shown.as_str());
    let signed: bool = chars.len() > 0 && chars[0] == '+';
    if !signed {
        if let Some(n) = parse_unsigned(chars.as_slice(), 255) {
            return Ok(n as u8);
        }
    } else {
        assert(!is_digit(value@.shown[0]));
    }
    Err(
        around(
            "invalid value for `--delimiter-byte`: `",
            value.shown.as_str(),
            "` (expected decimal byte 0..255)",
        ),
    )
}

/// Hexadecimal digits decode.
proof fn lemma_all_hex_decodes(s: Seq<char>)
    requires
        s.len() % 2 == 0,
        all_hex(s),
    ensures
        hex_bytes(s) is Some,
        hex_bytes(s)->0.len() * 2 == s.len(),
    decreases s.len(),
{
    if s.len() > 0 {
        let rest = s.take(s.len() - 2);
        assert forall|i: int| 0 <= i < rest.len() implies hex_digit(#[trigger] rest[i]) is Some by {
            assert(rest[i] == s[i]);
        }
        lemma_all_hex_decodes(rest);
        assert(hex_digit(s[s.len() - 2]) is Some);
        assert(hex_digit(s[s.len() - 1]) is Some);
        assert(hex_pair(s[s.len() - 2], s[s.len() - 1]) is Some);
    }
}

/// Read the value of `--delimiter-hex`.
pub fn parse_delimiter_hex(value: &Argument) -> (r: Result<Vec<u8>, String>)
    ensures
        match r {
            Ok(bytes) => delimiter_hex_value(value@) == Ok::<Seq<u8>, Seq<char>>(bytes@)
                && bytes@.len() > 0,
            Err(message) => delimiter_hex_value(value@) == Err::<Seq<u8>, Seq<char>>(message@),
        },
{
    let chars = chars_of(value.shown.as_str());
    let mut all: bool = true;
    let mut i: usize = 0;
    while i < chars.len()
        invariant
            i <= chars@.len(),
            chars@ == value.shown@,
            all ==> forall|k: int| 0 <= k < i ==> hex_digit(#[trigger] chars@[k]) is Some,
            !all ==> !all_hex(value.shown@),
        decreases chars@.len() - i,
    {
        if hex_digit_value(chars[i]).is_none() {
            all = false;
            assert(hex_digit(value.shown@[i as int]) is None);
        }
        i = i + 1;
    }
    if value.exact && chars.len() > 0 && chars.len() % 2 == 0 && all {
        proof {
            lemma_all_hex_decodes(value.shown@);
        }
        if let Some(bytes) = decode_hex(value.shown.as_str()) {
            return Ok(bytes);
        }
    }
    Err(
        around(
            "invalid value for `--delimiter-hex`: `",
            value.shown.as_str(),
            "` (expected an even-length hex string, e.g. 0d0a)",
        ),
    )
}

/// An option that takes a value.
#[derive(Clone, Copy, Debug, PartialEq, Eq, Structural)]
pub enum CommandOption {
    /// Number of partitions.
    Parts,
    /// Delimiter as one byte in decimal.
    DelimiterByte,
    /// Delimiter as bytes in hexadecimal.
    DelimiterHex,
    /// The one partition to print.
    Worker,
    /// How bytes are reached.
    Source,
    /// Window of the windowed source.
    Window,
}

impl CommandOption {
    /// How the option is written.
    pub open spec fn name(self) -> Seq<char> {
        match self {
            CommandOption::Parts => "--parts"@,
            CommandOption::DelimiterByte => "--delimiter-byte"@,
            CommandOption::DelimiterHex => "--delimiter-hex"@,
            CommandOption::Worker => "--worker"@,
            CommandOption::Source => "--source"@,
            CommandOption::Window => "--window"@,
        }
    }

    /// How the option is written.
    pub fn as_str(self) -> (r: &'static str)
        ensures
            r@ == self.name(),
    {
        match self {
            CommandOption::Parts => "--parts",
            CommandOption::DelimiterByte => "--delimiter-byte",
            CommandOption::DelimiterHex => "--delimiter-hex",
            CommandOption::Worker => "--worker",
            CommandOption::Source => "--source",
            CommandOption::Window => "--window",
        }
    }

    /// The option is one of the two ways to give a delimiter.
    pub open spec fn is_delimiter(self) -> bool {
        self is DelimiterByte || self is DelimiterHex
    }
}

/// The option that an argument names.
pub open spec fn option_of(arg: Arg) -> Option<CommandOption> {
    if arg.is("--parts"@) {
        Some(CommandOption::Parts)
    } else if arg.is("--delimiter-byte"@) {
        Some(CommandOption::DelimiterByte)
    } else if arg.is("--delimiter-hex"@) {
        Some(CommandOption::DelimiterHex)
    } else if arg.is("--worker"@) {
        Some(CommandOption::Worker)
    } else if arg.is("--source"@) {
        Some(CommandOption::Source)
    } else if arg.is("--window"@) {
        Some(CommandOption::Window)
    } else {
        None
    }
}

/// The option that an argument of `partition-files` names.
pub open spec fn files_option_of(arg: Arg) -> Option<CommandOption> {
    match option_of(arg) {
        Some(CommandOption::Parts) => Some(CommandOption::Parts),
        Some(CommandOption::DelimiterByte) => Some(CommandOption::DelimiterByte),
        _ => None,
    }
}

/// The option that an argument names.
fn named_option(argument: &Argument) -> (r: Option<CommandOption>)
    ensures
        r == option_of(argument@),
{
    if argument.is("--parts") {
        Some(CommandOption::Parts)
    } else if argument.is("--delimiter-byte") {
        Some(CommandOption::DelimiterByte)
    } else if argument.is("--delimiter-hex") {
        Some(CommandOption::DelimiterHex)
    } else if argument.is("--worker") {
        Some(CommandOption::Worker)
    } else if argument.is("--source") {
        Some(CommandOption::Source)
    } else if argument.is("--window") {
        Some(CommandOption::Window)
    } else {
        None
    }
}

/// The text starts with a dash.
pub open spec fn starts_with_dash(s: Seq<char>) -> bool {
    s.len() > 0 && s[0] == '-'
}

fn shows_dash(argument: &Argument) -> (r: bool)
    ensures
        r == starts_with_dash(argument@.shown),
{
    let chars = chars_of(argument.shown.as_str());
    chars.len() > 0 && chars[0] == '-'
}

/// A partitioning of one file in specifications.
pub struct PartitionTask {
    /// Position of the file among the arguments.
    pub file: int,
    /// Number of partitions.
    pub parts: nat,
    /// Record delimiter.
    pub delimiter: Seq<u8>,
    /// The one partition to print.
    pub worker: Option<nat>,
    /// How bytes are reached.
    pub source: SourceMode,
    /// Window in bytes.
    pub window: Option<nat>,
}

impl PartitionTask {
    /// The task can be carried out: the file is one of the arguments, there
    /// is a partition and a delimiter, the worker is one of the partitions,
    /// and a window is large enough and has a windowed source.
    pub open spec fn valid(self, args: Seq<Arg>) -> bool {
        &&& 0 <= self.file < args.len()
        &&& self.parts > 0
        &&& self.delimiter.len() > 0
        &&& self.worker matches Some(worker) ==> worker < self.parts
        &&& self.window matches Some(window) ==> window >= MIN_WINDOW_BYTES && self.source
            == SourceMode::Windowed
    }

    /// How the task is planned: through the whole-file mapping, or by a source
    /// with these options.
    pub open spec fn planner(self) -> Option<PlannerOptions> {
        match self.source {
            SourceMode::Mmap => None,
            mode => Some(
                PlannerOptions {
                    mode,
                    window_bytes: match self.window {
                        Some(window) => window as usize,
                        None => DEFAULT_WINDOW_BYTES,
                    },
                    scan_buffer_bytes: DEFAULT_SCAN_BUFFER_BYTES,
                },
            ),
        }
    }
}

/// What the arguments of `partition` have set so far.
pub struct PartitionState {
    /// Position of the file among the arguments.
    pub file: Option<int>,
    /// Number of partitions.
    pub parts: Option<nat>,
    /// Record delimiter.
    pub delimiter: Seq<u8>,
    /// Whether a delimiter was given.
    pub delimiter_seen: bool,
    /// The one partition to print.
    pub worker: Option<nat>,
    /// How bytes are reached.
    pub source: SourceMode,
    /// Whether that was given.
    pub source_seen: bool,
    /// Window in bytes.
    pub window: Option<nat>,
}

impl PartitionState {
    /// Nothing set: records end in a newline, the file is mapped whole.
    pub open spec fn start() -> PartitionState {
        PartitionState {
            file: None,
            parts: None,
            delimiter: seq![0x0Au8],
            delimiter_seen: false,
            worker: None,
            source: SourceMode::Mmap,
            source_seen: false,
            window: None,
        }
    }

    /// The option was given before.
    pub open spec fn has(self, option: CommandOption) -> bool {
        match option {
            CommandOption::Parts => self.parts is Some,
            CommandOption::DelimiterByte => self.delimiter_seen,
            CommandOption::DelimiterHex => self.delimiter_seen,
            CommandOption::Worker => self.worker is Some,
            CommandOption::Source => self.source_seen,
            CommandOption::Window => self.window is Some,
        }
    }

    /// The state after an option with its value.
    pub open spec fn set(self, option: CommandOption, value: Arg) -> Result<
        PartitionState,
        Seq<char>,
    > {
        match option {
            CommandOption::Parts => match parts_value(value) {
                Ok(n) => Ok(PartitionState { parts: Some(n), ..self }),
                Err(e) => Err(e),
            },
            CommandOption::DelimiterByte => match delimiter_byte_value(value) {
                Ok(byte) => Ok(
                    PartitionState { delimiter: seq![byte], delimiter_seen: true, ..self },
                ),
                Err(e) => Err(e),
            },
            CommandOption::DelimiterHex => match delimiter_hex_value(value) {
                Ok(bytes) => Ok(PartitionState { delimiter: bytes, delimiter_seen: true, ..self }),
                Err(e) => Err(e),
            },
            CommandOption::Worker => match worker_value(value) {
                Ok(n) => Ok(PartitionState { worker: Some(n), ..self }),
                Err(e) => Err(e),
            },
            CommandOption::Source => match source_value(value) {
                Ok(mode) => Ok(PartitionState { source: mode, source_seen: true, ..self }),
                Err(e) => Err(e),
            },
            CommandOption::Window => match window_value(value) {
                Ok(n) => Ok(PartitionState { window: Some(n), ..self }),
                Err(e) => Err(e),
            },
        }
    }

    /// The state after the argument at `i`, and after its value where it has
    /// one, with the position of the next argument.
    pub open spec fn after(self, args: Seq<Arg>, i: int) -> Result<
        (PartitionState, int),
        Seq<char>,
    > {
        match option_of(args[i]) {
            Some(option) => if self.has(option) {
                Err(
                    if option.is_delimiter() {
                        "duplicate delimiter option (`--delimiter-byte` / `--delimiter-hex`)"@
                    } else {
                        "duplicate option `"@ + option.name() + "`"@
                    },
                )
            } else if i + 1 >= args.len() {
                Err("missing value for `"@ + option.name() + "`"@)
            } else {
                match self.set(option, args[i + 1]) {
                    Ok(state) => Ok((state, i + 2)),
                    Err(e) => Err(e),
                }
            },
            None => if starts_with_dash(args[i].shown) {
                Err("unexpected option `"@ + args[i].shown + "`"@)
            } else if self.file is Some {
                Err("unexpected argument `"@ + args[i].shown + "`"@)
            } else {
                Ok((PartitionState { file: Some(i), ..self }, i + 1))
            },
        }
    }

    /// The state after all the arguments from `i` on.
    pub open spec fn after_all(self, args: Seq<Arg>, i: int) -> Result<PartitionState, Seq<char>>
        decreases args.len() - i,
    {
        if i >= args.len() {
            Ok(self)
        } else {
            match self.after(args, i) {
                Ok((state, next)) => state.after_all(args, next),
                Err(e) => Err(e),
            }
        }
    }

    /// What the options ask for once all are read.
    pub open spec fn request(self) -> Result<PartitionTask, Seq<char>> {
        if self.file is None {
            Err("missing FILE"@)
        } else if self.parts is None {
            Err("missing required option `--parts`"@)
        } else if self.worker is Some && self.worker->0 >= self.parts->0 {
            Err("`--worker` must be less than `--parts`"@)
        } else if self.window is Some && self.source != SourceMode::Windowed {
            Err("`--window` requires `--source windowed`"@)
        } else {
            Ok(
                PartitionTask {
                    file: self.file->0,
                    parts: self.parts->0,
                    delimiter: self.delimiter,
                    worker: self.worker,
                    source: self.source,
                    window: self.window,
                },
            )
        }
    }

    /// Every value that was taken can be used.
    pub open spec fn usable(self, args: Seq<Arg>) -> bool {
        &&& self.delimiter.len() > 0
        &&& self.file matches Some(file) ==> 0 <= file < args.len()
        &&& self.parts matches Some(parts) ==> parts > 0
        &&& self.window matches Some(window) ==> window >= MIN_WINDOW_BYTES
    }
}

/// The options of `partition` while they are read.
struct PartitionOptions {
    file: Option<usize>,
    parts: Option<usize>,
    delimiter: Vec<u8>,
    delimiter_seen: bool,
    worker: Option<usize>,
    source: SourceMode,
    source_seen: bool,
    window: Option<usize>,
}

/// An executable number as a mathematical one.
pub open spec fn optional_nat(n: Option<usize>) -> Option<nat> {
    match n {
        Some(n) => Some(n as nat),
        None => None,
    }
}

/// An executable position as a mathematical one.
pub open spec fn optional_int(n: Option<usize>) -> Option<int> {
    match n {
        Some(n) => Some(n as int),
        None => None,
    }
}

impl PartitionOptions {
    spec fn state(self) -> PartitionState {
        PartitionState {
            file: optional_int(self.file),
            parts: optional_nat(self.parts),
            delimiter: self.delimiter@,
            delimiter_seen: self.delimiter_seen,
            worker: optional_nat(self.worker),
            source: self.source,
            source_seen: self.source_seen,
            window: optional_nat(self.window),
        }
    }

    fn has(&self, option: CommandOption) -> (r: bool)
        ensures
            r == self.state().has(option),
    {
        match option {
            CommandOption::Parts => self.parts.is_some(),
            CommandOption::DelimiterByte => self.delimiter_seen,
            CommandOption::DelimiterHex => self.delimiter_seen,
            CommandOption::Worker => self.worker.is_some(),
            CommandOption::Source => self.source_seen,
            CommandOption::Window => self.window.is_some(),
        }
    }

    /// Take an option with its value.
    fn set(&mut self, option: CommandOption, value: &Argument) -> (r: Result<(), String>)
        ensures
            match r {
                Ok(_) => old(self).state().set(option, value@) == Ok::<PartitionState, Seq<char>>(
                    final(self).state(),
                ),
                Err(message) => old(self).state().set(option, value@) == Err::<
                    PartitionState,
                    Seq<char>,
                >(message@),
            },
    {
        match option {
            CommandOption::Parts => match parse_parts(value) {
                Ok(n) => {
                    self.parts = Some(n);
                },
                Err(message) => {
                    return Err(message);
                },
            },
            CommandOption::DelimiterByte => match parse_delimiter_byte(value) {
                Ok(byte) => {
                    self.delimiter = vec![byte];
                    self.delimiter_seen = true;
                    assert(self.delimiter@ =~= seq![byte]);
                },
                Err(message) => {
                    return Err(message);
                },
            },
            CommandOption::DelimiterHex => match parse_delimiter_hex(value) {
                Ok(bytes) => {
                    self.delimiter = bytes;
                    self.delimiter_seen = true;
                },
                Err(message) => {
                    return Err(message);
                },
            },
            CommandOption::Worker => match parse_worker(value) {
                Ok(n) => {
                    self.worker = Some(n);
                },
                Err(message) => {
                    return Err(message);
                },
            },
            CommandOption::Source => match parse_source(value) {
                Ok(mode) => {
                    self.source = mode;
                    self.source_seen = true;
                },
                Err(message) => {
                    return Err(message);
                },
            },
            CommandOption::Window => match parse_window(value) {
                Ok(n) => {
                    self.window = Some(n);
                },
                Err(message) => {
                    return Err(message);
                },
            },
        }
        Ok(())
    }

    /// Take the argument at `i` and return the position of the next one.
    fn take(&mut self, arguments: &[Argument], i: usize) -> (r: Result<usize, String>)
        requires
            i < arguments@.len(),
        ensures
            match r {
                Ok(next) => old(self).state().after(args_of(arguments@), i as int) == Ok::<
                    (PartitionState, int),
                    Seq<char>,
                >((final(self).state(), next as int)) && i < next <= arguments@.len(),
                Err(message) => old(self).state().after(args_of(arguments@), i as int) == Err::<
                    (PartitionState, int),
                    Seq<char>,
                >(message@),
            },
    {
        let len: usize = arguments.len();
        let argument = &arguments[i];
        match named_option(argument) {
            Some(option) => {
                if self.has(option) {
                    return Err(
                        match option {
                            CommandOption::DelimiterByte | CommandOption::DelimiterHex =>
                                "duplicate delimiter option (`--delimiter-byte` / `--delimiter-hex`)".to_string(),
                            _ => around("duplicate option `", option.as_str(), "`"),
                        },
                    );
                }
                if len - i <= 1 {
                    return Err(around("missing value for `", option.as_str(), "`"));
                }
                match self.set(option, &arguments[i + 1]) {
                    Ok(_) => Ok(i + 2),
                    Err(message) => Err(message),
                }
            },
            None => {
                if shows_dash(argument) {
                    return Err(around("unexpected option `", argument.shown.as_str(), "`"));
                }
                if self.file.is_some() {
                    return Err(around("unexpected argument `", argument.shown.as_str(), "`"));
                }
                self.file = Some(i);
                Ok(i + 1)
            },
        }
    }
}

/// A partitioning of one file.
#[derive(Debug)]
pub struct PartitionRequest {
    /// Position of the file among the arguments.
    pub file: usize,
    /// Number of partitions.
    pub parts: usize,
    /// Record delimiter.
    pub delimiter: Vec<u8>,
    /// The one partition to print.
    pub worker: Option<usize>,
    /// How bytes are reached.
    pub source: SourceMode,
    /// Window in bytes.
    pub window: Option<usize>,
}

impl View for PartitionRequest {
    type V = PartitionTask;

    open spec fn view(&self) -> PartitionTask {
        PartitionTask {
            file: self.file as int,
            parts: self.parts as nat,
            delimiter: self.delimiter@,
            worker: optional_nat(self.worker),
            source: self.source,
            window: optional_nat(self.window),
        }
    }
}

impl PartitionRequest {
    /// How the request is planned: through the whole-file mapping, or by a
    /// source with these options.
    pub fn planner(&self) -> (r: Option<PlannerOptions>)
        ensures
            r == self@.planner(),
    {
        match self.source {
            SourceMode::Mmap => None,
            mode => {
                let options = PlannerOptions::new(mode);
                match self.window {
                    Some(window) => Some(options.with_window_bytes(window)),
                    None => Some(options),
                }
            },
        }
    }
}

/// Values that were taken stay usable.
proof fn lemma_after_usable(state: PartitionState, args: Seq<Arg>, i: int)
    requires
        state.usable(args),
        0 <= i < args.len(),
    ensures
        state.after(args, i) matches Ok((next, _)) ==> next.usable(args),
{
    if option_of(args[i]) == Some(CommandOption::DelimiterHex) && i + 1 < args.len() {
        if delimiter_hex_value(args[i + 1]) is Ok {
            lemma_all_hex_decodes(args[i + 1].shown);
        }
    }
}

/// Law: whatever `partition` accepts can be carried out.
pub proof fn law_accepted_partition_is_valid(state: PartitionState, args: Seq<Arg>, i: int)
    requires
        state.usable(args),
        0 <= i,
    ensures
        state.after_all(args, i) matches Ok(last) ==> last.request() matches Ok(task)
            ==> task.valid(args),
    decreases args.len() - i,
{
    if i < args.len() {
        lemma_after_usable(state, args, i);
        match state.after(args, i) {
            Ok((next, k)) => {
                law_accepted_partition_is_valid(next, args, k);
            },
            Err(_) => {},
        }
    }
}

/// A partitioning of several files in specifications.
pub struct FilesTask {
    /// Positions of the files among the arguments.
    pub files: Seq<int>,
    /// Number of workers.
    pub parts: nat,
    /// Record delimiter.
    pub delimiter: u8,
}

/// What the arguments of `partition-files` have set so far.
pub struct FilesState {
    /// Positions of the files among the arguments.
    pub files: Seq<int>,
    /// Number of workers.
    pub parts: Option<nat>,
    /// Record delimiter.
    pub delimiter: u8,
    /// Whether a delimiter was given.
    pub delimiter_seen: bool,
}

impl FilesState {
    /// Nothing set: records end in a newline.
    pub open spec fn start() -> FilesState {
        FilesState { files: Seq::empty(), parts: None, delimiter: 0x0A, delimiter_seen: false }
    }

    /// The state after the argument at `i`, and after its value where it has
    /// one, with the position of the next argument.
    pub open spec fn after(self, args: Seq<Arg>, i: int) -> Result<(FilesState, int), Seq<char>> {
        match files_option_of(args[i]) {
            Some(option) => if (option is Parts && self.parts is Some) || (option is DelimiterByte
                && self.delimiter_seen) {
                Err("duplicate option `"@ + option.name() + "`"@)
            } else if i + 1 >= args.len() {
                Err("missing value for `"@ + option.name() + "`"@)
            } else if option is Parts {
                match parts_value(args[i + 1]) {
                    Ok(n) => Ok((FilesState { parts: Some(n), ..self }, i + 2)),
                    Err(e) => Err(e),
                }
            } else {
                match delimiter_byte_value(args[i + 1]) {
                    Ok(byte) => Ok(
                        (FilesState { delimiter: byte, delimiter_seen: true, ..self }, i + 2),
                    ),
                    Err(e) => Err(e),
                }
            },
            None => if starts_with_dash(args[i].shown) {
                Err("unexpected option `"@ + args[i].shown + "`"@)
            } else {
                Ok((FilesState { files: self.files.push(i), ..self }, i + 1))
            },
        }
    }

    /// The state after all the arguments from `i` on.
    pub open spec fn after_all(self, args: Seq<Arg>, i: int) -> Result<FilesState, Seq<char>>
        decreases args.len() - i,
    {
        if i >= args.len() {
            Ok(self)
        } else {
            match self.after(args, i) {
                Ok((state, next)) => state.after_all(args, next),
                Err(e) => Err(e),
            }
        }
    }

    /// What the options ask for once all are read.
    pub open spec fn request(self) -> Result<FilesTask, Seq<char>> {
        if self.parts is None {
            Err("missing required option `--parts`"@)
        } else if self.files.len() == 0 {
            Err("missing FILE (provide one or more ordered source paths)"@)
        } else {
            Ok(FilesTask { files: self.files, parts: self.parts->0, delimiter: self.delimiter })
        }
    }

    /// Every value that was taken can be used.
    pub open spec fn usable(self, args: Seq<Arg>) -> bool {
        &&& self.parts matches Some(parts) ==> parts > 0
        &&& forall|k: int| 0 <= k < self.files.len() ==> 0 <= #[trigger] self.files[k] < args.len()
    }
}

impl FilesTask {
    /// The task can be carried out: it has files, all of them arguments, and
    /// a worker.
    pub open spec fn valid(self, args: Seq<Arg>) -> bool {
        &&& self.files.len() > 0
        &&& self.parts > 0
        &&& forall|k: int| 0 <= k < self.files.len() ==> 0 <= #[trigger] self.files[k] < args.len()
    }
}

/// Law: whatever `partition-files` accepts can be carried out.
pub proof fn law_accepted_files_are_valid(state: FilesState, args: Seq<Arg>, i: int)
    requires
        state.usable(args),
        0 <= i,
    ensures
        state.after_all(args, i) matches Ok(last) ==> last.request() matches Ok(task)
            ==> task.valid(args),
    decreases args.len() - i,
{
    if i < args.len() {
        match state.after(args, i) {
            Ok((next, k)) => {
                assert forall|j: int| 0 <= j < next.files.len() implies 0
                    <= #[trigger] next.files[j] < args.len() by {
                    if j < state.files.len() {
                        assert(next.files[j] == state.files[j]);
                    }
                }
                law_accepted_files_are_valid(next, args, k);
            },
            Err(_) => {},
        }
    }
}

/// A partitioning of several files.
#[derive(Debug)]
pub struct FilesRequest {
    /// Positions of the files among the arguments.
    pub files: Vec<usize>,
    /// Number of workers.
    pub parts: usize,
    /// Record delimiter.
    pub delimiter: u8,
}

/// Executable positions as mathematical ones.
pub open spec fn positions(files: Seq<usize>) -> Seq<int> {
    files.map_values(|f: usize| f as int)
}

impl View for FilesRequest {
    type V = FilesTask;

    open spec fn view(&self) -> FilesTask {
        FilesTask {
            files: positions(self.files@),
            parts: self.parts as nat,
            delimiter: self.delimiter,
        }
    }
}

/// What a command line asks for in specifications.
pub enum Task {
    /// Print the help.
    Help,
    /// Print the version.
    Version,
    /// Partition one file.
    Partition(PartitionTask),
    /// Partition several files.
    PartitionFiles(FilesTask),
}

/// What a command line asks for.
#[derive(Debug)]
pub enum Command {
    /// Print the help.
    Help,
    /// Print the version.
    Version,
    /// Partition one file.
    Partition(PartitionRequest),
    /// Partition several files.
    PartitionFiles(FilesRequest),
}

impl View for Command {
    type V = Task;

    open spec fn view(&self) -> Task {
        match self {
            Command::Help => Task::Help,
            Command::Version => Task::Version,
            Command::Partition(request) => Task::Partition(request@),
            Command::PartitionFiles(request) => Task::PartitionFiles(request@),
        }
    }
}

/// What an executable command result says.
pub open spec fn command_result(r: Result<Command, String>) -> Result<Task, Seq<char>> {
    match r {
        Ok(command) => Ok(command@),
        Err(message) => Err(message@),
    }
}

/// What the arguments after `partition` ask for.
pub open spec fn partition_task(args: Seq<Arg>) -> Result<Task, Seq<char>> {
    if args.len() == 2 && args[1].is_help() {
        Ok(Task::Help)
    } else {
        match PartitionState::start().after_all(args, 1) {
            Ok(state) => match state.request() {
                Ok(task) => Ok(Task::Partition(task)),
                Err(e) => Err(e),
            },
            Err(e) => Err(e),
        }
    }
}

/// What the arguments after `partition-files` ask for.
pub open spec fn files_task(args: Seq<Arg>) -> Result<Task, Seq<char>> {
    if args.len() == 2 && args[1].is_help() {
        Ok(Task::Help)
    } else {
        match FilesState::start().after_all(args, 1) {
            Ok(state) => match state.request() {
                Ok(task) => Ok(Task::PartitionFiles(task)),
                Err(e) => Err(e),
            },
            Err(e) => Err(e),
        }
    }
}

/// What a whole command line asks for.
pub open spec fn command_task(args: Seq<Arg>) -> Result<Task, Seq<char>> {
    if args.len() == 0 {
        Err("missing command"@)
    } else if args.len() == 1 && args[0].is_help() {
        Ok(Task::Help)
    } else if args.len() == 1 && args[0].is_version() {
        Ok(Task::Version)
    } else if args[0].is("partition"@) {
        partition_task(args)
    } else if args[0].is("partition-files"@) {
        files_task(args)
    } else {
        Err("unknown command `"@ + args[0].shown + "`"@)
    }
}

/// The task can be carried out.
pub open spec fn task_valid(task: Task, args: Seq<Arg>) -> bool {
    match task {
        Task::Partition(task) => task.valid(args),
        Task::PartitionFiles(task) => task.valid(args),
        _ => true,
    }
}

/// Read the arguments of `partition`; the first of them is the command.
pub fn run_partition(arguments: &[Argument]) -> (r: Result<Command, String>)
    requires
        arguments@.len() > 0,
    ensures
        command_result(r) == partition_task(args_of(arguments@)),
        r matches Ok(command) ==> task_valid(command@, args_of(arguments@)),
{
    let ghost args = args_of(arguments@);
    let ghost start = PartitionState::start();
    if arguments.len() == 2 && arguments[1].is_help() {
        return Ok(Command::Help);
    }
    let mut options = PartitionOptions {
        file: None,
        parts: None,
        delimiter: vec![0x0A],
        delimiter_seen: false,
        worker: None,
        source: SourceMode::Mmap,
        source_seen: false,
        window: None,
    };
    proof {
        assert(options.delimiter@ =~= seq![0x0Au8]);
        assert(options.state() == start);
        law_accepted_partition_is_valid(start, args, 1);
    }
    let mut i: usize = 1;
    while i < arguments.len()
        invariant
            1 <= i <= arguments@.len(),
            args == args_of(arguments@),
            start.after_all(args, 1) == options.state().after_all(args, i as int),
            !(args.len() == 2 && args[1].is_help()),
            start == PartitionState::start(),
        decreases arguments@.len() - i,
    {
        match options.take(arguments, i) {
            Ok(next) => {
                i = next;
            },
            Err(message) => {
                return Err(message);
            },
        }
    }
    let file: usize = match options.file {
        Some(file) => file,
        None => {
            return Err("missing FILE".to_string());
        },
    };
    let parts: usize = match options.parts {
        Some(parts) => parts,
        None => {
            return Err("missing required option `--parts`".to_string());
        },
    };
    if let Some(worker) = options.worker {
        if worker >= parts {
            return Err("`--worker` must be less than `--parts`".to_string());
        }
    }
    if options.window.is_some() && options.source != SourceMode::Windowed {
        return Err("`--window` requires `--source windowed`".to_string());
    }
    Ok(
        Command::Partition(
            PartitionRequest {
                file,
                parts,
                delimiter: options.delimiter,
                worker: options.worker,
                source: options.source,
                window: options.window,
            },
        ),
    )
}

/// Read the arguments of `partition-files`; the first of them is the command.
pub fn run_partition_files(arguments: &[Argument]) -> (r: Result<Command, String>)
    requires
        arguments@.len() > 0,
    ensures
        command_result(r) == files_task(args_of(arguments@)),
        r matches Ok(command) ==> task_valid(command@, args_of(arguments@)),
{
    let ghost args = args_of(arguments@);
    let ghost start = FilesState::start();
    let len: usize = arguments.len();
    if len == 2 && arguments[1].is_help() {
        return Ok(Command::Help);
    }
    let mut files: Vec<usize> = Vec::new();
    let mut parts: Option<usize> = None;
    let mut delimiter: u8 = 0x0A;
    let mut delimiter_seen: bool = false;
    let mut i: usize = 1;
    proof {
        assert(positions(files@) =~= Seq::empty());
        law_accepted_files_are_valid(start, args, 1);
    }
    while i < len
        invariant
            1 <= i <= len == arguments@.len(),
            args == args_of(arguments@),
            start == FilesState::start(),
            start.after_all(args, 1) == (FilesState {
                files: positions(files@),
                parts: optional_nat(parts),
                delimiter,
                delimiter_seen,
            }).after_all(args, i as int),
            !(args.len() == 2 && args[1].is_help()),
        decreases len - i,
    {
        let argument = &arguments[i];
        match named_option(argument) {
            Some(CommandOption::Parts) => {
                if parts.is_some() {
                    return Err(around("duplicate option `", "--parts", "`"));
                }
                if len - i <= 1 {
                    return Err(around("missing value for `", "--parts", "`"));
                }
                match parse_parts(&arguments[i + 1]) {
                    Ok(n) => {
                        parts = Some(n);
                    },
                    Err(message) => {
                        return Err(message);
                    },
                }
                i = i + 2;
            },
            Some(CommandOption::DelimiterByte) => {
                if delimiter_seen {
                    return Err(around("duplicate option `", "--delimiter-byte", "`"));
                }
                if len - i <= 1 {
                    return Err(around("missing value for `", "--delimiter-byte", "`"));
                }
                match parse_delimiter_byte(&arguments[i + 1]) {
                    Ok(byte) => {
                        delimiter = byte;
                        delimiter_seen = true;
                    },
                    Err(message) => {
                        return Err(message);
                    },
                }
                i = i + 2;
            },
            _ => {
                if shows_dash(argument) {
                    return Err(around("unexpected option `", argument.shown.as_str(), "`"));
                }
                proof {
                    assert(positions(files@.push(i)) =~= positions(files@).push(i as int));
                }
                files.push(i);
                i = i + 1;
            },
        }
    }
    let parts: usize = match parts {
        Some(parts) => parts,
        None => {
            return Err("missing required option `--parts`".to_string());
        },
    };
    if files.len() == 0 {
        return Err("missing FILE (provide one or more ordered source paths)".to_string());
    }
    Ok(Command::PartitionFiles(FilesRequest { files, parts, delimiter }))
}

/// Read a whole command line, without the name of the program.
pub fn run(arguments: &[Argument]) -> (r: Result<Command, String>)
    ensures
        command_result(r) == command_task(args_of(arguments@)),
        r matches Ok(command) ==> task_valid(command@, args_of(arguments@)),
{
    if arguments.len() == 0 {
        return Err("missing command".to_string());
    }
    let first = &arguments[0];
    if arguments.len() == 1 && first.is_help() {
        return Ok(Command::Help);
    }
    if arguments.len() == 1 && first.is_version() {
        return Ok(Command::Version);
    }
    if first.is("partition") {
        run_partition(arguments)
    } else if first.is("partition-files") {
        run_partition_files(arguments)
    } else {
        Err(around("unknown command `", first.shown.as_str(), "`"))
    }
}

} // verus!
