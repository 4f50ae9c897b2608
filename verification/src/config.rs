//! Run configuration: validation of raw invocation arguments into an
//! immutable `Config`, and the closed error taxonomy of the tool.

use vstd::prelude::*;
use vstd::string::*;

use crate::parse::digits_part;
use crate::parse::digits_value;
use crate::parse::is_positive_count;
use crate::parse::parse_positive_int;

verus! {

/// The immutable run configuration: the ordered source references, the line
/// count, and the optional byte count that switches the run to byte mode.
#[derive(Debug)]
pub struct Config {
    /// Source references, in input order; `-` names standard input.
    pub files: Vec<String>,
    /// Number of line records to emit per source, active when `bytes` is
    /// absent.
    pub lines: usize,
    /// Number of bytes to emit per source; when present it takes precedence
    /// over `lines`.
    pub bytes: Option<usize>,
}

impl Config {
    /// Well-formedness: at least one source, and strictly positive counts.
    pub open spec fn wf(&self) -> bool {
        &&& self.files@.len() >= 1
        &&& self.lines >= 1
        &&& match self.bytes {
            Some(b) => b >= 1,
            None => true,
        }
    }
}

/// The failures the tool can report, with their structured context.
#[derive(Debug)]
pub enum HeadError {
    /// The line-count argument was not a positive integer; carries the
    /// offending literal verbatim.
    IllegalLineCount(String),
    /// The byte-count argument was not a positive integer; carries the
    /// offending literal verbatim.
    IllegalByteCount(String),
    /// Both a line count and a byte count were supplied.
    UsageConflict,
}

impl HeadError {
    /// The diagnostic text of this error.
    pub open spec fn message_spec(&self) -> Seq<char> {
        match self {
            HeadError::IllegalLineCount(lit) => "illegal line count -- "@ + lit@,
            HeadError::IllegalByteCount(lit) => "illegal byte count -- "@ + lit@,
            HeadError::UsageConflict => "the line and byte count options cannot be used together"@,
        }
    }

    /// Renders the diagnostic text of this error.
    pub fn message(&self) -> (r: String)
        ensures
            r@ == self.message_spec(),
    {
        match self {
            HeadError::IllegalLineCount(lit) => {
                let mut m = "illegal line count -- ".to_owned();
                m.append(lit.as_str());
                m
            },
            HeadError::IllegalByteCount(lit) => {
                let mut m = "illegal byte count -- ".to_owned();
                m.append(lit.as_str());
                m
            },
            HeadError::UsageConflict => {
                "the line and byte count options cannot be used together".to_owned()
            },
        }
    }
}

/// Validates raw invocation arguments into a `Config`.
///
/// Supplying both counts is a conflict whatever their values; a count that
/// is not a positive integer is rejected with its literal; otherwise the
/// sources default to `-` when none are given and the line count defaults
/// to 10 when absent.
pub fn resolve(files: Vec<String>, lines: Option<String>, bytes: Option<String>) -> (r: Result<
    Config,
    HeadError,
>)
    ensures
        lines is Some && bytes is Some ==> (r matches Err(e) && e is UsageConflict),
        bytes is None ==> (lines matches Some(l) ==> (!is_positive_count(l@) ==> (r matches Err(e)
            && e matches HeadError::IllegalLineCount(lit) && lit@ == l@))),
        lines is None ==> (bytes matches Some(b) ==> (!is_positive_count(b@) ==> (r matches Err(e)
            && e matches HeadError::IllegalByteCount(lit) && lit@ == b@))),
        !(lines is Some && bytes is Some) && (lines matches Some(l) ==> is_positive_count(l@)) && (
        bytes matches Some(b) ==> is_positive_count(b@)) ==> (r matches Ok(c) && c.wf() && (
        match lines {
            Some(l) => c.lines == digits_value(digits_part(l@)),
            None => c.lines == 10,
        }) && (match bytes {
            Some(b) => c.bytes matches Some(n) && n == digits_value(digits_part(b@)),
            None => c.bytes is None,
        }) && (if files@.len() > 0 {
            c.files@ == files@
        } else {
            c.files@.len() == 1 && c.files@[0]@ == "-"@
        })),
{
    if lines.is_some() && bytes.is_some() {
        return Err(HeadError::UsageConflict);
    }
    let line_count: usize = match lines {
        Some(l) => {
            match parse_positive_int(l.as_str()) {
                Ok(n) => n,
                Err(_) => {
                    return Err(HeadError::IllegalLineCount(l));
                },
            }
        },
        None => 10,
    };
    let byte_count: Option<usize> = match bytes {
        Some(b) => {
            match parse_positive_int(b.as_str()) {
                Ok(n) => Some(n),
                Err(_) => {
                    return Err(HeadError::IllegalByteCount(b));
                },
            }
        },
        None => None,
    };
    let mut sources = files;
    if sources.len() == 0 {
        sources.push("-".to_owned());
    }
    Ok(Config { files: sources, lines: line_count, bytes: byte_count })
}

} // verus!
