//! Command-line arguments of the three programs built on the classifier.

pub mod ocr;
pub mod multiproc;
pub mod server;

use vstd::prelude::*;
use crate::numbers::{IntErrorKind, int_error_text, parse_decimal};

verus! {

/// Why a command line was refused.
#[derive(Clone, Copy, PartialEq, Eq, Debug)]
pub enum ArgsError {
    /// Too few or too many arguments.
    ArgCount,
    /// A numeric argument is not a number of its type.
    BadNumber(IntErrorKind),
    /// `k` is zero.
    ZeroK,
    /// The number of worker processes is zero.
    ZeroProcesses,
    /// The port is below 1024.
    ReservedPort,
}

/// What reading the argument text `a` as a decimal integer in `min..=max` gives.
pub open spec fn number_arg(a: Seq<char>, min: int, max: int) -> Result<int, ArgsError> {
    match parse_decimal(vstd::utf8::encode_utf8(a), min, max) {
        Ok(v) => Ok(v),
        Err(e) => Err(ArgsError::BadNumber(e)),
    }
}

/// What reading the optional `k` argument (`argv[at]` where it is there) gives: 3 by
/// default, an error where it is zero or no `usize`.
pub open spec fn k_arg(argv: Seq<Seq<char>>, at: int, present: bool) -> Result<int, ArgsError> {
    if !present {
        Ok(3)
    } else {
        match number_arg(argv[at], 0, usize::MAX as int) {
            Ok(k) => if k == 0 {
                Err(ArgsError::ZeroK)
            } else {
                Ok(k)
            },
            Err(e) => Err(e),
        }
    }
}


/// The message a refused command line is reported with; `arg_count_text` is the
/// program's own message for a wrong number of arguments.
pub open spec fn args_error_message(err: ArgsError, arg_count_text: Seq<char>) -> Seq<char> {
    match err {
        ArgsError::ArgCount => arg_count_text,
        ArgsError::BadNumber(kind) => int_error_text(kind),
        ArgsError::ZeroK => "k must be positive"@,
        ArgsError::ZeroProcesses => "n_proc must be positive"@,
        ArgsError::ReservedPort => "port must be greater than 1023"@,
    }
}

impl ArgsError {
    /// The message this refusal is reported with, given the program's message for a wrong
    /// number of arguments.
    pub fn message<'a>(&self, arg_count_text: &'a str) -> (r: &'a str)
        ensures
            r@ == args_error_message(*self, arg_count_text@),
    {
        match self {
            ArgsError::ArgCount => arg_count_text,
            ArgsError::BadNumber(kind) => kind.text(),
            ArgsError::ZeroK => "k must be positive",
            ArgsError::ZeroProcesses => "n_proc must be positive",
            ArgsError::ReservedPort => "port must be greater than 1023",
        }
    }
}


/// The value of the argument text `a` read as a decimal integer in `min..=max`, where it
/// is one.
pub open spec fn reads_as(a: Seq<char>, min: int, max: int, v: int) -> bool {
    parse_decimal(vstd::utf8::encode_utf8(a), min, max) == Ok::<int, IntErrorKind>(v)
}

/// The argument text `a` reads as a decimal integer in `min..=max`.
pub open spec fn reads_as_number(a: Seq<char>, min: int, max: int) -> bool {
    parse_decimal(vstd::utf8::encode_utf8(a), min, max) is Ok
}

} // verus!
