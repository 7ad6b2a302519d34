//! How the kernel's log lines look: which levels are shown, the tag of
//! each level, and the short name of the module that speaks.

use vstd::prelude::*;

verus! {

/// How urgent a log line is, most urgent first.
#[derive(Debug, Clone, Copy, PartialEq, Eq)]
pub enum LogLevel {
    /// Something failed.
    Error,
    /// Something looks wrong.
    Warn,
    /// Something worth knowing.
    Info,
    /// A detail for whoever debugs.
    Debug,
    /// A detail of a detail.
    Trace,
}

/// The error of the `log` crate for a logger that could not be shut
/// down. Nothing is known of what a value of it holds.
#[verifier::external_type_specification]
#[verifier::external_body]
pub struct ExShutdownLoggerError(log::ShutdownLoggerError);

/// The terminal colour code of a level.
pub open spec fn spec_level_color(level: LogLevel) -> Seq<char> {
    match level {
        LogLevel::Error => "41m"@,
        LogLevel::Warn => "43m"@,
        LogLevel::Info => "42m"@,
        LogLevel::Debug => "44m"@,
        LogLevel::Trace => "47m"@,
    }
}

/// The letter that tags a line of a level.
pub open spec fn spec_level_letter(level: LogLevel) -> char {
    match level {
        LogLevel::Error => 'E',
        LogLevel::Warn => 'W',
        LogLevel::Info => 'I',
        LogLevel::Debug => 'D',
        LogLevel::Trace => 'T',
    }
}

/// A separator of module names, `::`, starts at `i`.
pub open spec fn separator_at(path: Seq<u8>, i: int) -> bool {
    0 <= i && i + 1 < path.len() && path[i] == 58 && path[i + 1] == 58
}

/// Where the last module name of `path` starts: behind the last
/// separator, or at 0 where the path has none.
pub open spec fn spec_module_tail(path: Seq<u8>, tail: int) -> bool {
    if tail == 0 {
        forall|i: int| !separator_at(path, i)
    } else {
        &&& separator_at(path, tail - 2)
        &&& forall|i: int| tail - 2 < i ==> !separator_at(path, i)
    }
}

/// Where the last module name of `path` starts.
pub open spec fn tail_of(path: Seq<u8>) -> int {
    choose|tail: int| 0 <= tail <= path.len() && spec_module_tail(path, tail)
}

/// A path has one place where its last module name starts.
pub proof fn lemma_tail_of(path: Seq<u8>, tail: int)
    requires
        0 <= tail <= path.len(),
        spec_module_tail(path, tail),
    ensures
        tail_of(path) == tail,
{
    let other = tail_of(path);
    if other != tail {
        if tail > 0 {
            assert(separator_at(path, tail - 2));
        }
        if other > 0 {
            assert(separator_at(path, other - 2));
        }
    }
}

/// The terminal colour code of a level, as bytes.
pub open spec fn level_color_bytes(level: LogLevel) -> Seq<u8> {
    match level {
        LogLevel::Error => seq![52u8, 49u8, 109u8],
        LogLevel::Warn => seq![52u8, 51u8, 109u8],
        LogLevel::Info => seq![52u8, 50u8, 109u8],
        LogLevel::Debug => seq![52u8, 52u8, 109u8],
        LogLevel::Trace => seq![52u8, 55u8, 109u8],
    }
}

/// The letter that tags a line of a level, as a byte.
pub open spec fn level_letter_byte(level: LogLevel) -> u8 {
    match level {
        LogLevel::Error => 69,
        LogLevel::Warn => 87,
        LogLevel::Info => 73,
        LogLevel::Debug => 68,
        LogLevel::Trace => 84,
    }
}

/// The tag that opens a line of a level: the escape sequence that sets
/// the background to the colour of the level, the one that sets the text to
/// black, a space, the letter of the level, a space, and the escape
/// sequence that resets the colours.
pub open spec fn level_tag(level: LogLevel) -> Seq<u8> {
    seq![27u8, 91u8] + level_color_bytes(level) + seq![27u8, 91u8, 51u8, 48u8, 109u8, 32u8]
        + seq![level_letter_byte(level), 32u8, 27u8, 91u8, 48u8, 109u8]
}

/// Columns that the name of the module takes in a line.
pub const MODULE_COLUMNS: usize = 10;

/// `name` followed by spaces up to `MODULE_COLUMNS` bytes; a longer name
/// stands as it is.
pub open spec fn in_columns(name: Seq<u8>) -> Seq<u8> {
    if name.len() >= MODULE_COLUMNS {
        name
    } else {
        name + Seq::new((MODULE_COLUMNS - name.len()) as nat, |i: int| 32u8)
    }
}

/// The line that logs `message` for the module of path `path` at `level`:
/// the tag of the level, a space, the last module name of the path in its
/// columns, a space, the message and a line feed.
pub open spec fn spec_log_line(level: LogLevel, path: Seq<u8>, message: Seq<u8>) -> Seq<u8> {
    level_tag(level) + seq![32u8] + in_columns(path.skip(tail_of(path))) + seq![32u8] + message
        + seq![10u8]
}

/// The line that logs `message` for the module of path `path` at
/// `level`. The name of the module is padded by bytes, which are columns
/// as long as the name is ASCII.
pub fn log_line(level: LogLevel, path: &[u8], message: &[u8]) -> (line: Vec<u8>)
    ensures
        line@ == spec_log_line(level, path@, message@),
{
    let tail: usize = module_tail(path);
    proof {
        lemma_tail_of(path@, tail as int);
    }
    let ghost name = path@.skip(tail as int);
    let mut line: Vec<u8> = Vec::new();
    line.push(27);
    line.push(91);
    line.push(52);
    line.push(
        match level {
            LogLevel::Error => 49,
            LogLevel::Warn => 51,
            LogLevel::Info => 50,
            LogLevel::Debug => 52,
            LogLevel::Trace => 55,
        },
    );
    line.push(109);
    line.push(27);
    line.push(91);
    line.push(51);
    line.push(48);
    line.push(109);
    line.push(32);
    line.push(
        match level {
            LogLevel::Error => 69,
            LogLevel::Warn => 87,
            LogLevel::Info => 73,
            LogLevel::Debug => 68,
            LogLevel::Trace => 84,
        },
    );
    line.push(32);
    line.push(27);
    line.push(91);
    line.push(48);
    line.push(109);
    assert(line@ =~= level_tag(level));
    line.push(32);
    let ghost head = level_tag(level) + seq![32u8];
    assert(line@ =~= head);
    let n: usize = path.len();
    let mut i: usize = tail;
    while i < n
        invariant
            tail <= i <= n,
            n == path@.len(),
            name == path@.skip(tail as int),
            line@ == head + name.take(i - tail),
        decreases n - i,
    {
        line.push(path[i]);
        assert(line@ =~= head + name.take(i + 1 - tail));
        i = i + 1;
    }
    assert(name.take(n - tail) == name);
    let mut width: usize = n - tail;
    while width < MODULE_COLUMNS
        invariant
            n - tail <= width,
            n - tail < MODULE_COLUMNS ==> width <= MODULE_COLUMNS,
            n - tail >= MODULE_COLUMNS ==> width == n - tail,
            name.len() == n - tail,
            line@ == head + name + Seq::new((width - name.len()) as nat, |i: int| 32u8),
        decreases MODULE_COLUMNS - width,
    {
        line.push(32);
        assert(line@ =~= head + name + Seq::new((width + 1 - name.len()) as nat, |i: int| 32u8));
        width = width + 1;
    }
    assert(line@ =~= head + in_columns(name)) by {
        let pad = Seq::new((width - name.len()) as nat, |i: int| 32u8);
        if name.len() >= MODULE_COLUMNS {
            assert(pad.len() == 0);
            assert(in_columns(name) == name);
        } else {
            assert(width == MODULE_COLUMNS);
            assert(in_columns(name) == name + pad);
        }
        assert(head + name + pad =~= head + (name + pad));
    }
    line.push(32);
    let ghost front = head + in_columns(name) + seq![32u8];
    assert(line@ =~= front);
    let m: usize = message.len();
    let mut k: usize = 0;
    while k < m
        invariant
            k <= m,
            m == message@.len(),
            line@ == front + message@.take(k as int),
        decreases m - k,
    {
        line.push(message[k]);
        assert(line@ =~= front + message@.take(k + 1));
        k = k + 1;
    }
    assert(message@.take(m as int) == message@);
    line.push(10);
    assert(line@ =~= spec_log_line(level, path@, message@));
    line
}

/// Whether lines of `level` are shown: all but `Trace`.
pub fn enabled(level: LogLevel) -> (r: bool)
    ensures
        r == !(level is Trace),
{
    match level {
        LogLevel::Trace => false,
        _ => true,
    }
}

/// The letter that tags a line of `level`.
pub fn level_letter(level: LogLevel) -> (r: char)
    ensures
        r == spec_level_letter(level),
{
    match level {
        LogLevel::Error => 'E',
        LogLevel::Warn => 'W',
        LogLevel::Info => 'I',
        LogLevel::Debug => 'D',
        LogLevel::Trace => 'T',
    }
}

/// The terminal colour code of `level`: red for errors, yellow for
/// warnings, green for information, blue for debugging, white for
/// traces.
pub fn level_color(level: LogLevel) -> (r: &'static str)
    ensures
        r@ == spec_level_color(level),
{
    match level {
        LogLevel::Error => "41m",
        LogLevel::Warn => "43m",
        LogLevel::Info => "42m",
        LogLevel::Debug => "44m",
        LogLevel::Trace => "47m",
    }
}

/// Where the last module name of `path` starts: behind the last `::`, or
/// at 0 where the path has none.
pub fn module_tail(path: &[u8]) -> (tail: usize)
    ensures
        tail <= path@.len(),
        spec_module_tail(path@, tail as int),
        tail == tail_of(path@),
{
    let n: usize = path.len();
    if n < 2 {
        proof {
            lemma_tail_of(path@, 0);
        }
        return 0;
    }
    let mut i: usize = n - 1;
    while i > 0
        invariant
            i < n,
            n == path@.len(),
            forall|j: int| i <= j ==> !separator_at(path@, j),
        decreases i,
    {
        i = i - 1;
        if path[i] == 58 && path[i + 1] == 58 {
            proof {
                lemma_tail_of(path@, i + 2);
            }
            return i + 2;
        }
    }
    proof {
        lemma_tail_of(path@, 0);
    }
    0
}

/// Shuts the logger down. The logger holds no lines back, so there is
/// nothing to flush and the call cannot fail.
pub fn shutdown() -> (r: Result<(), log::ShutdownLoggerError>)
    ensures
        r is Ok,
{
    Ok(())
}

} // verus!
