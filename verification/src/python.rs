//! The library's error type and result alias.
use vstd::prelude::*;
use vstd::string::*;

pub mod exceptions;

verus! {

/// The category of an error, after the exception classes that callers know.
#[derive(PartialEq, Eq, Structural, Clone, Copy, Debug)]
pub enum ErrorKind {
    ValueError,
    IndexError,
    AssertionError,
    RuntimeError,
    TypeError,
    IoError,
}

/// An error raised by the library: its category, a message, and whether it is
/// caused by what the user supplied (rather than by a bug or corrupt data).
#[derive(Debug)]
pub struct PyErr {
    pub kind: ErrorKind,
    pub value: String,
    pub user_error: bool,
}

pub type PyResult<T> = Result<T, PyErr>;

impl PyErr {
    pub fn new(kind: ErrorKind, msg: &str) -> (r: PyErr)
        ensures
            r.kind == kind,
            r.value@ == msg@,
            !r.user_error,
    {
        PyErr { kind, value: String::from_str(msg), user_error: false }
    }
}

/// Creates a value error that is marked as caused by the user (for error reporting).
pub fn create_value_user_error(msg: &str) -> (r: PyErr)
    ensures
        r.kind == ErrorKind::ValueError,
        r.value@ == msg@,
        r.user_error,
{
    PyErr { kind: ErrorKind::ValueError, value: String::from_str(msg), user_error: true }
}

/// The decimal digit character of `d` (below 10).
pub open spec fn digit_char(d: nat) -> char {
    ('0' as nat + d) as char
}

/// The decimal digits of `n`.
pub open spec fn decimal(n: nat) -> Seq<char>
    decreases n,
{
    if n < 10 {
        seq![digit_char(n)]
    } else {
        decimal(n / 10) + seq![digit_char(n % 10)]
    }
}

fn digit_str(d: usize) -> (r: &'static str)
    requires
        d < 10,
    ensures
        r@ == seq![digit_char(d as nat)],
{
    if d == 0 {
        proof { reveal_strlit("0"); }
        "0"
    } else if d == 1 {
        proof { reveal_strlit("1"); }
        "1"
    } else if d == 2 {
        proof { reveal_strlit("2"); }
        "2"
    } else if d == 3 {
        proof { reveal_strlit("3"); }
        "3"
    } else if d == 4 {
        proof { reveal_strlit("4"); }
        "4"
    } else if d == 5 {
        proof { reveal_strlit("5"); }
        "5"
    } else if d == 6 {
        proof { reveal_strlit("6"); }
        "6"
    } else if d == 7 {
        proof { reveal_strlit("7"); }
        "7"
    } else if d == 8 {
        proof { reveal_strlit("8"); }
        "8"
    } else {
        proof { reveal_strlit("9"); }
        "9"
    }
}

/// Appends the decimal digits of `n` to a message.
pub fn append_decimal(s: &mut String, n: usize)
    ensures
        final(s)@ == old(s)@ + decimal(n as nat),
    decreases n,
{
    if n >= 10 {
        append_decimal(s, n / 10);
    }
    s.append(digit_str(n % 10));
}

/// Either a single index or a slice `start..end` (with an optional step).
#[derive(PartialEq, Eq, Structural, Clone, Copy, Debug)]
pub enum SliceOrInt {
    Slice(isize, isize, isize),
    Int(isize),
}

} // verus!
