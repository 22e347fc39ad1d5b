//! Arguments of the single-process classifier: `DATA_DIR [N_TESTS [K]]`.

use vstd::prelude::*;
use crate::cli::{reads_as, reads_as_number, ArgsError, args_error_message, k_arg, number_arg};
use crate::numbers::{lemma_parse_decimal_in_range, parse_i32, parse_usize};

verus! {

/// The settings of one run.
pub struct Args {
    /// Directory holding the four IDX files.
    pub data_dir: String,
    /// Number of neighbours that vote.
    pub k: usize,
    /// Number of test images to classify; all of them where not positive.
    pub n_test: i32,
}

/// What `Args::new` gives for the arguments `argv` (program name first): the data
/// directory, `k` and the number of tests.
pub open spec fn ocr_args(argv: Seq<Seq<char>>) -> Result<(Seq<char>, int, int), ArgsError> {
    let argc = argv.len();
    if argc < 2 || argc > 4 {
        Err(ArgsError::ArgCount)
    } else {
        let n_test = if argc > 2 {
            number_arg(argv[2], i32::MIN as int, i32::MAX as int)
        } else {
            Ok(-1)
        };
        match n_test {
            Err(e) => Err(e),
            Ok(n) => match k_arg(argv, 3, argc == 4) {
                Err(e) => Err(e),
                Ok(k) => Ok((argv[1], k, n)),
            },
        }
    }
}

/// The message for a command line with too few or too many arguments.
pub open spec fn ocr_arg_count_text() -> Seq<char> {
    "must be called with 1 ... 3 args"@
}

impl Args {
    /// The message a refused command line is reported with.
    pub fn error_message(err: ArgsError) -> (r: &'static str)
        ensures
            r@ == args_error_message(err, ocr_arg_count_text()),
    {
        err.message("must be called with 1 ... 3 args")
    }

    /// Reads the arguments `argv`, program name first.
    pub fn new(argv: &Vec<String>) -> (r: Result<Args, ArgsError>)
        ensures
            match r {
                Ok(a) => ocr_args(argv.deep_view()) == Ok::<(Seq<char>, int, int), ArgsError>(
                    (a.data_dir@, a.k as int, a.n_test as int),
                ),
                Err(e) => ocr_args(argv.deep_view()) == Err::<(Seq<char>, int, int), ArgsError>(e),
            },
    {
        let argc = argv.len();
        if argc < 2 || argc > 4 {
            return Err(ArgsError::ArgCount);
        }
        let data_dir = argv[1].clone();
        let mut n_test: i32 = -1;
        let mut k: usize = 3;
        if argc > 2 {
            match parse_i32(argv[2].as_str()) {
                Ok(v) => {
                    n_test = v;
                },
                Err(e) => {
                    return Err(ArgsError::BadNumber(e));
                },
            }
        }
        if argc == 4 {
            match parse_usize(argv[3].as_str()) {
                Ok(v) => {
                    k = v;
                },
                Err(e) => {
                    return Err(ArgsError::BadNumber(e));
                },
            }
            if k == 0 {
                return Err(ArgsError::ZeroK);
            }
        }
        Ok(Args { data_dir, k, n_test })
    }
}


/// A command line that is accepted always yields a positive `k`.
pub proof fn lemma_ocr_k_positive(argv: Seq<Seq<char>>)
    ensures
        ocr_args(argv) matches Ok(a) ==> a.1 > 0,
{
    if argv.len() == 4 {
        lemma_parse_decimal_in_range(vstd::utf8::encode_utf8(argv[3]), 0, usize::MAX as int);
    }
}


/// What an accepted command line gives: `DATA_DIR` is the first argument; `N_TESTS`, where
/// given, is the second argument read as an `i32`, else -1; `K`, where given, is the third
/// argument read as a `usize`, else 3. A command line is accepted exactly when it has one
/// to three arguments, `N_TESTS` (where given) reads as an `i32`, and `K` (where given)
/// reads as a positive `usize`.
pub proof fn lemma_ocr_args_fields(argv: Seq<Seq<char>>)
    ensures
        ocr_args(argv) matches Ok(a) ==> {
            &&& a.0 == argv[1]
            &&& argv.len() > 2 ==> reads_as(argv[2], i32::MIN as int, i32::MAX as int, a.2)
            &&& argv.len() <= 2 ==> a.2 == -1
            &&& argv.len() == 4 ==> reads_as(argv[3], 0, usize::MAX as int, a.1)
            &&& argv.len() < 4 ==> a.1 == 3
        },
        ocr_args(argv) is Ok <==> {
            &&& 2 <= argv.len() <= 4
            &&& argv.len() > 2 ==> reads_as_number(argv[2], i32::MIN as int, i32::MAX as int)
            &&& argv.len() == 4 ==> reads_as_number(argv[3], 0, usize::MAX as int) && !reads_as(
                argv[3],
                0,
                usize::MAX as int,
                0,
            )
        },
{
}

} // verus!
