//! Errors, and the jumps (`break`, `continue`, `return`) that travel
//! the same way.

use vstd::prelude::*;
use crate::value::Value;

verus! {

/// What kind of error?
#[derive(Debug)]
pub enum ErrorKind {
    SyntaxError,
    ParseError,
    RuntimeError,
    ArgNotFound,
    WrongArgType,
    Jump(Jump),
}

/// Something that aborts what we're doing: `break`, `continue`,
/// `return`.
#[derive(Debug)]
pub enum Jump {
    Break,
    Continue,
    Return(Value),
}

/// An error, usually tied to a place in the source: `pos` and `len`
/// count characters.
#[derive(Debug)]
pub struct Error {
    pub kind: ErrorKind,
    pub details: String,
    pub pos: usize,
    pub len: usize,
}

/// Alias for a Result whose error is an `Error`.
pub type Result<T> = std::result::Result<T, Error>;

impl Error {
    /// An error of `kind` at `pos`.
    pub fn new(kind: ErrorKind, details: String, pos: usize, len: usize) -> (r: Error)
        ensures
            r == (Error { kind, details, pos, len }),
    {
        Error { kind, details, pos, len }
    }
}

/// A runtime error with message `msg`.
pub fn runtime_error(msg: &str) -> (r: Error)
    ensures
        r.kind is RuntimeError,
        r.details@ == msg@,
{
    Error { kind: ErrorKind::RuntimeError, details: msg.to_owned(), pos: 0, len: 0 }
}

/// An error of kind `kind` with message `msg`, tied to no place.
pub fn error_of(kind: ErrorKind, msg: &str) -> (r: Error)
    ensures
        r.kind == kind,
        r.details@ == msg@,
{
    Error { kind, details: msg.to_owned(), pos: 0, len: 0 }
}

/// The 1-based line and column of character `pos` of `source`: a
/// newline belongs to the line it ends.
pub fn line_and_col(source: &str, pos: usize) -> (r: (usize, usize))
    requires
        source@.len() < usize::MAX,
    ensures
        r == spec_line_and_col(source@, pos as int),
{
    let chars = crate::text::str_to_chars(source);
    let mut line: usize = 1;
    let mut col: usize = 0;
    let mut i: usize = 0;
    while i < chars.len()
        invariant
            i <= chars@.len(),
            chars@ == source@,
            source@.len() < usize::MAX,
            i <= pos + 1,
            line <= i + 1,
            col <= i,
            spec_line_and_col_from(source@, pos as int, i as int, line as int, col as int)
                == spec_line_and_col(source@, pos as int),
        decreases chars.len() - i,
    {
        let c = chars[i];
        if c == '\n' {
            if i == pos {
                return (line, col + 1);
            }
            line += 1;
            col = 0;
        } else {
            col += 1;
        }
        if i >= pos {
            return (line, col);
        }
        i += 1;
    }
    (line, col)
}

/// Walks `s` from character `i`, at line `line` and column `col`.
pub open spec fn spec_line_and_col_from(s: Seq<char>, pos: int, i: int, line: int, col: int) -> (
    usize,
    usize,
)
    decreases s.len() - i,
{
    if i < 0 || i >= s.len() {
        (line as usize, col as usize)
    } else if s[i] == '\n' && i == pos {
        (line as usize, (col + 1) as usize)
    } else {
        let (l2, c2) = if s[i] == '\n' { (line + 1, 0) } else { (line, col + 1) };
        if i >= pos {
            (l2 as usize, c2 as usize)
        } else {
            spec_line_and_col_from(s, pos, i + 1, l2, c2)
        }
    }
}

/// The line and column of character `pos` in `s`.
pub open spec fn spec_line_and_col(s: Seq<char>, pos: int) -> (usize, usize) {
    spec_line_and_col_from(s, pos, 0, 1, 0)
}

} // verus!
