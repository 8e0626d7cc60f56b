//! What the command line says.

use vstd::prelude::*;
use vstd::string::*;

use crate::text::{copy_str, decimal};

verus! {

/// How lines are read.
#[derive(Clone, Copy, Debug, PartialEq, Eq, Structural)]
pub enum LogFormat {
    Auto,
    Bunyan,
    Plain,
    EnvLogger,
    Logfmt,
    Tracing,
}

/// The limit on the bytes of a line where none is given.
pub const DEFAULT_MAX_LINE_BYTES: &'static str = "64KiB";

/// What `bytesize` makes of a text: a number of bytes, or the text of an error.
pub uninterp spec fn byte_size(text: Seq<char>) -> Result<u64, Seq<char>>;

/// The view of a number of bytes, or of the text of an error.
pub open spec fn size_view(r: Result<u64, String>) -> Result<u64, Seq<char>> {
    match r {
        Ok(bytes) => Ok(bytes),
        Err(text) => Err(text@),
    }
}

/// The result is so many bytes.
pub open spec fn is_size(r: Result<u64, String>, bytes: u64) -> bool {
    r matches Ok(n) && n == bytes
}

/// The result is a limit of so many bytes.
pub open spec fn is_limit(r: Result<usize, String>, bytes: nat) -> bool {
    r matches Ok(n) && n == bytes
}

/// So many bytes, or as many as can be counted.
pub open spec fn counted(bytes: nat) -> u64 {
    if bytes <= u64::MAX {
        bytes as u64
    } else {
        u64::MAX
    }
}

/// Calls `<bytesize::ByteSize as FromStr>::from_str` and `ByteSize::as_u64`. The
/// number of bytes, or the text of the error, depends on the text alone. The
/// digits of a number stand for so many bytes, and with `KiB` behind them for so
/// many times 1024, but for no more than a `u64` can count.
#[verifier::external_body]
fn read_byte_size(text: &str) -> (r: Result<u64, String>)
    ensures
        size_view(r) == byte_size(text@),
        forall|n: nat| n <= u64::MAX && text@ == #[trigger] decimal(n) ==> is_size(r, n as u64),
        forall|n: nat|
            n <= u64::MAX && text@ == #[trigger] decimal(n) + "KiB"@ ==> is_size(
                r,
                counted(n * 1024),
            ),
{
    let size: bytesize::ByteSize = text.parse()?;
    Ok(size.as_u64())
}

/// A limit on the bytes of a line, given what a text is as a number of bytes: it
/// must fit the platform, and be more than zero.
pub open spec fn limit_of(size: Result<u64, Seq<char>>) -> Result<usize, Seq<char>> {
    match size {
        Err(text) => Err("invalid byte size: "@ + text),
        Ok(bytes) => if bytes > usize::MAX {
            Err("byte size is too large for this platform"@)
        } else if bytes == 0 {
            Err("byte size must be greater than zero"@)
        } else {
            Ok(bytes as usize)
        },
    }
}

/// The view of a limit, or of the text of an error.
pub open spec fn limit_view(r: Result<usize, String>) -> Result<usize, Seq<char>> {
    match r {
        Ok(bytes) => Ok(bytes),
        Err(text) => Err(text@),
    }
}

/// Reads a limit on the bytes of a line. It is never zero.
pub fn parse_byte_size(value: &str) -> (r: Result<usize, String>)
    ensures
        limit_view(r) == limit_of(byte_size(value@)),
        r matches Ok(bytes) ==> bytes > 0,
        forall|n: nat|
            0 < n <= u64::MAX && n <= usize::MAX && value@ == #[trigger] decimal(n) ==> is_limit(
                r,
                n,
            ),
        forall|n: nat|
            0 < n && n * 1024 <= u64::MAX && n * 1024 <= usize::MAX && value@
                == #[trigger] decimal(n) + "KiB"@ ==> is_limit(r, n * 1024),
{
    limit_from_size(read_byte_size(value))
}

/// A size is a limit if it is not zero and can be counted, and is then kept as it is.
/// Every other size is refused with the reason.
pub proof fn law_sizes_are_limits(bytes: u64, error: Seq<char>)
    ensures
        limit_of(Ok(bytes)) matches Ok(limit) ==> limit == bytes,
        limit_of(Ok(bytes)) is Ok <==> 0 < bytes && bytes <= usize::MAX,
        limit_of(Ok(0u64)) == Err::<usize, Seq<char>>("byte size must be greater than zero"@),
        bytes > usize::MAX ==> limit_of(Ok(bytes)) == Err::<usize, Seq<char>>(
            "byte size is too large for this platform"@,
        ),
        limit_of(Err(error)) == Err::<usize, Seq<char>>("invalid byte size: "@ + error),
{
}

/// The limit that a number of bytes is, if it can be one.
pub fn limit_from_size(size: Result<u64, String>) -> (r: Result<usize, String>)
    ensures
        limit_view(r) == limit_of(size_view(size)),
{
    match size {
        Err(error) => {
            let mut text = copy_str("invalid byte size: ");
            text.append(error.as_str());
            Err(text)
        },
        Ok(bytes) => {
            if bytes > usize::MAX as u64 {
                Err(copy_str("byte size is too large for this platform"))
            } else if bytes == 0 {
                Err(copy_str("byte size must be greater than zero"))
            } else {
                Ok(bytes as usize)
            }
        },
    }
}

/// The limit on the bytes of a line where none is given.
pub fn default_max_line_bytes() -> (r: Result<usize, String>)
    ensures
        is_limit(r, 65536),
{
    proof {
        reveal_strlit("64KiB");
        reveal_strlit("KiB");
        reveal_with_fuel(decimal, 2);
        assert(decimal(64) + "KiB"@ =~= "64KiB"@);
    }
    parse_byte_size(DEFAULT_MAX_LINE_BYTES)
}

/// Where lines come from: a command with its arguments, or a file.
#[derive(Clone, Debug, PartialEq, Eq)]
pub enum InputSource<P> {
    Command(Vec<String>),
    File(P),
}

/// Why there is no source of lines.
#[derive(Clone, Copy, Debug, PartialEq, Eq, Structural)]
pub enum SourceError {
    FileWithCommand,
    NoCommand,
}

impl SourceError {
    /// What to tell the user.
    pub open spec fn text(self) -> Seq<char> {
        match self {
            SourceError::FileWithCommand => "the argument '--file <FILE>' cannot be used with '[COMMAND]...'"@,
            SourceError::NoCommand => "the following required arguments were not provided: <COMMAND>..."@,
        }
    }

    pub fn message(self) -> (r: &'static str)
        ensures
            r@ == self.text(),
    {
        match self {
            SourceError::FileWithCommand => "the argument '--file <FILE>' cannot be used with '[COMMAND]...'",
            SourceError::NoCommand => "the following required arguments were not provided: <COMMAND>...",
        }
    }
}

/// The source of lines: a file or a command, but not both.
pub fn choose_source<P>(file: Option<P>, command: Vec<String>) -> (r: Result<
    InputSource<P>,
    SourceError,
>)
    ensures
        r == (match file {
            Some(path) => if command@.len() == 0 {
                Ok(InputSource::File(path))
            } else {
                Err(SourceError::FileWithCommand)
            },
            None => if command@.len() == 0 {
                Err(SourceError::NoCommand)
            } else {
                Ok(InputSource::Command(command))
            },
        }),
{
    match file {
        Some(path) => {
            if command.len() == 0 {
                Ok(InputSource::File(path))
            } else {
                Err(SourceError::FileWithCommand)
            }
        },
        None => {
            if command.len() == 0 {
                Err(SourceError::NoCommand)
            } else {
                Ok(InputSource::Command(command))
            }
        },
    }
}

} // verus!
