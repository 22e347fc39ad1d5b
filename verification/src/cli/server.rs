//! Arguments of the HTTP classifier: `PORT DATA_DIR ROOT_HTML_PATH [K]`.

use vstd::prelude::*;
use crate::cli::{reads_as, reads_as_number, ArgsError, args_error_message, k_arg, number_arg};
use crate::numbers::{parse_decimal, lemma_parse_decimal_in_range, parse_u16, parse_usize};

verus! {

/// The settings of the server.
pub struct Args {
    /// TCP port to listen on.
    pub port: u16,
    /// Directory holding the training IDX files.
    pub data_dir: String,
    /// Path of the page served at `/`.
    pub index_path: String,
    /// Number of neighbours that vote.
    pub k: usize,
}

/// What `Args::new` gives for the arguments `argv` (program name first): the port, the
/// data directory, the index page path and `k`.
pub open spec fn server_args(argv: Seq<Seq<char>>) -> Result<(int, Seq<char>, Seq<char>, int), ArgsError> {
    let argc = argv.len();
    if argc < 4 || argc > 5 {
        Err(ArgsError::ArgCount)
    } else {
        match number_arg(argv[1], 0, u16::MAX as int) {
            Err(e) => Err(e),
            Ok(port) => if port < 1024 {
                Err(ArgsError::ReservedPort)
            } else {
                match k_arg(argv, 4, argc == 5) {
                    Err(e) => Err(e),
                    Ok(k) => Ok((port, argv[2], argv[3], k)),
                }
            },
        }
    }
}

/// The message for a command line with too few or too many arguments.
pub open spec fn server_arg_count_text() -> Seq<char> {
    "must be called with 3 ... 4 args"@
}

impl Args {
    /// The message a refused command line is reported with.
    pub fn error_message(err: ArgsError) -> (r: &'static str)
        ensures
            r@ == args_error_message(err, server_arg_count_text()),
    {
        err.message("must be called with 3 ... 4 args")
    }

    /// Reads the arguments `argv`, program name first.
    pub fn new(argv: &Vec<String>) -> (r: Result<Args, ArgsError>)
        ensures
            match r {
                Ok(a) => server_args(argv.deep_view()) == Ok::<
                    (int, Seq<char>, Seq<char>, int),
                    ArgsError,
                >((a.port as int, a.data_dir@, a.index_path@, a.k as int)),
                Err(e) => server_args(argv.deep_view()) == Err::<
                    (int, Seq<char>, Seq<char>, int),
                    ArgsError,
                >(e),
            },
    {
        let argc = argv.len();
        if argc < 4 || argc > 5 {
            return Err(ArgsError::ArgCount);
        }
        let port = match parse_u16(argv[1].as_str()) {
            Ok(v) => v,
            Err(e) => {
                return Err(ArgsError::BadNumber(e));
            },
        };
        if port < 1024 {
            return Err(ArgsError::ReservedPort);
        }
        let data_dir = argv[2].clone();
        let index_path = argv[3].clone();
        let mut k: usize = 3;
        if argc == 5 {
            match parse_usize(argv[4].as_str()) {
                Ok(v) => {
                    k = v;
                },
                Err(e) => {
                    return Err(ArgsError::BadNumber(e));
                },
            }
            if k == 0 {
                return Err(ArgsError::ZeroK);
            }
        }
        Ok(Args { port, data_dir, index_path, k })
    }
}


/// A command line that is accepted always yields a port of at least 1024 and a positive `k`.
pub proof fn lemma_server_port_unreserved(argv: Seq<Seq<char>>)
    ensures
        server_args(argv) matches Ok(a) ==> a.0 >= 1024 && a.3 > 0,
{
    if argv.len() == 5 {
        lemma_parse_decimal_in_range(vstd::utf8::encode_utf8(argv[4]), 0, usize::MAX as int);
    }
}


/// What an accepted command line gives: `PORT` is the first argument read as a `u16`,
/// `DATA_DIR` and `ROOT_HTML_PATH` are the second and third arguments, and `K`, where given,
/// is the fourth argument read as a `usize`, else 3. A command line is accepted exactly
/// when it has three or four arguments, `PORT` reads as a `u16` of at least 1024, and `K`
/// (where given) reads as a positive `usize`.
pub proof fn lemma_server_args_fields(argv: Seq<Seq<char>>)
    ensures
        server_args(argv) matches Ok(a) ==> {
            &&& reads_as(argv[1], 0, u16::MAX as int, a.0)
            &&& a.1 == argv[2]
            &&& a.2 == argv[3]
            &&& argv.len() == 5 ==> reads_as(argv[4], 0, usize::MAX as int, a.3)
            &&& argv.len() < 5 ==> a.3 == 3
        },
        server_args(argv) is Ok <==> {
            &&& 4 <= argv.len() <= 5
            &&& reads_as_number(argv[1], 0, u16::MAX as int)
            &&& !(exists|p: int| 0 <= p < 1024 && #[trigger] reads_as(argv[1], 0, u16::MAX as int, p))
            &&& argv.len() == 5 ==> reads_as_number(argv[4], 0, usize::MAX as int) && !reads_as(
                argv[4],
                0,
                usize::MAX as int,
                0,
            )
        },
{
    lemma_parse_decimal_in_range(vstd::utf8::encode_utf8(argv[1]), 0, u16::MAX as int);
    if argv.len() >= 2 {
        if let Ok(port) = parse_decimal(vstd::utf8::encode_utf8(argv[1]), 0, u16::MAX as int) {
            assert(reads_as(argv[1], 0, u16::MAX as int, port));
        }
    }
}

} // verus!
