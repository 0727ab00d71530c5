use vstd::prelude::*;
use vstd::string::*;
use vstd::utf8::*;

use crate::status::IoError;
use crate::text::{bytes_equal, lemma_boundary_after_ascii, slice_str};

verus! {

/// The first lines of both help texts.
pub const HELP_HEADER: &'static str = "servum 1.0.0
Ulysse McConnell <ulysse.mcconnell+dev@protonmail.com>

servum is a simple, bare-bones and fast static web server for local
(web-)development. HTTP only.

Project home page: https://github.com/umcconnell/servum


USAGE:
    servum 
    servum [BASE_DIR]
    servum [BASE_DIR] [OPTIONS]";

/// The part of the long help text after its first lines.
pub const HELP_LONG_BODY: &'static str = "

ARGS:
    <BASE_DIR>
            Base directory to serve content from. All sub-directories and files
            will be served. Default is the current directory.

OPTIONS:
    -a, --address <STRING>:
            Address to listen on. Default is the loopback address 127.0.0.1,
            i.e localhost.
    -p, --port <NUM>:
            Port to listen on. Note that some ports, such as port 80 (HTTP)
            require elevated privileges to bind to and may already be in use.
            Default is 8080.
    -t, --threads <NUM>:
            Number of parallel threads to handle request with. Must be at least
            1. Default is 4.
    -q, --quiet:
            Don't be verbose and stop printing information about incoming
            requests.
        --no-list-dir:
            Don't list directories and prevent directory traversals by returning
            \"403 Permission Denied\" responses when attempting to access a
            directory.
    -h, --help:
            Show this help. Use -h for a quick summary of available commands and
            --help for a more detailed view.
";

/// The part of the short help text after its first lines.
pub const HELP_SHORT_BODY: &'static str = "

ARGS:
    <BASE_DIR>    Optional directory to serve content from.

OPTIONS:
    -a, --address <STRING>:     Address to listen on. Default is 127.0.0.1
    -p, --port <NUM>:           Port to listen on. Default is 8080
    -t, --threads <NUM>:        Number of threads. Default is 4.
    -q, --quiet:                Don't be verbose.
        --no-list-dir:          Don't list directories.
    -h, --help:                 Show this help. Use --help for more details.
";

/// How the server runs: where it listens, what it serves, and how.
#[derive(Debug)]
pub struct Config {
    pub address: String,
    pub base_dir: Vec<u8>,
    pub list_dir: bool,
    pub port: usize,
    pub threads: usize,
    pub verbose: bool,
}

/// What the command line asked for, where it was read without error.
#[derive(Debug, PartialEq, Eq, Structural)]
pub enum ParseOutcome {
    /// Run the server with the configuration read.
    Run,
    /// Show the short help and stop.
    ShortHelp,
    /// Show the long help and stop.
    LongHelp,
}

/// Why the command line could not be read.
#[derive(Debug)]
pub enum CliError<'a> {
    InvalidArg(&'a str),
    InvalidVal(&'a str, &'a str),
    MissingVal(&'a str),
    IOError(IoError),
}

/// The settings that the command line can change, as bytes.
pub struct Settings {
    pub address: Seq<u8>,
    pub base_dir: Seq<u8>,
    pub list_dir: bool,
    pub port: usize,
    pub threads: usize,
    pub verbose: bool,
}

/// The outcome of reading a command line, with the arguments it names.
pub enum ArgsOutcome {
    Run,
    ShortHelp,
    LongHelp,
    InvalidArg(Seq<u8>),
    InvalidVal(Seq<u8>, Seq<u8>),
    MissingVal(Seq<u8>),
}

/// The settings of a configuration.
pub open spec fn settings_of(c: Config) -> Settings {
    Settings {
        address: encode_utf8(c.address@),
        base_dir: c.base_dir@,
        list_dir: c.list_dir,
        port: c.port,
        threads: c.threads,
        verbose: c.verbose,
    }
}

/// The bytes of each argument.
pub open spec fn arg_bytes(args: Seq<String>) -> Seq<Seq<u8>> {
    args.map_values(|s: String| encode_utf8(s@))
}

/// The bytes of a string literal.
pub open spec fn lit(s: &str) -> Seq<u8> {
    s.spec_bytes()
}

/// The position of the first `=` in `s` at or after `from`.
pub open spec fn find_eq(s: Seq<u8>, from: int) -> Option<int>
    decreases s.len() - from,
{
    if from < 0 || from >= s.len() {
        None
    } else if s[from] == 0x3du8 {
        Some(from)
    } else {
        find_eq(s, from + 1)
    }
}

/// Whether `b` is an ASCII digit.
pub open spec fn is_digit(b: u8) -> bool {
    0x30 <= b <= 0x39
}

/// The number that the decimal digits `d` write.
pub open spec fn digits_value(d: Seq<u8>) -> nat
    decreases d.len(),
{
    if d.len() == 0 {
        0
    } else {
        digits_value(d.drop_last()) * 10 + (d.last() - 0x30) as nat
    }
}

/// The digits of a decimal number: `v` without a leading `+`.
pub open spec fn unsigned_digits(v: Seq<u8>) -> Seq<u8> {
    if v.len() > 0 && v[0] == 0x2bu8 {
        v.subrange(1, v.len() as int)
    } else {
        v
    }
}

/// The number that `v` writes in decimal, as `usize`'s `FromStr` reads it:
/// an optional `+`, then at least one digit, with a value that fits.
pub open spec fn parse_decimal(v: Seq<u8>) -> Option<usize> {
    let d = unsigned_digits(v);
    if d.len() > 0 && (forall|k: int| 0 <= k < d.len() ==> is_digit(#[trigger] d[k]))
        && digits_value(d) <= usize::MAX {
        Some(digits_value(d) as usize)
    } else {
        None
    }
}

/// Reads the arguments from position `i` on, starting from settings `c`:
/// the settings reached and what the command line asks for. A value follows
/// its option as the next argument, or after `=` in the same one.
pub open spec fn parse_from(args: Seq<Seq<u8>>, i: int, c: Settings) -> (Settings, ArgsOutcome)
    decreases args.len() - i,
{
    if i < 0 || i >= args.len() {
        (c, ArgsOutcome::Run)
    } else {
        let el = args[i];
        if el == lit("-q") || el == lit("--quiet") {
            parse_from(args, i + 1, Settings { verbose: false, ..c })
        } else if el == lit("--no-list-dir") {
            parse_from(args, i + 1, Settings { list_dir: false, ..c })
        } else if el == lit("-h") {
            (c, ArgsOutcome::ShortHelp)
        } else if el == lit("--help") {
            (c, ArgsOutcome::LongHelp)
        } else {
            let (name, val, next) = match find_eq(el, 0) {
                Some(e) => (
                    el.subrange(0, e),
                    Some(
                        el.subrange(
                            e + 1,
                            match find_eq(el, e + 1) {
                                Some(f) => f,
                                None => el.len() as int,
                            },
                        ),
                    ),
                    i + 1,
                ),
                None => (
                    el,
                    if i + 1 < args.len() {
                        Some(args[i + 1])
                    } else {
                        None
                    },
                    i + 2,
                ),
            };
            match val {
                None => (c, ArgsOutcome::MissingVal(name)),
                Some(v) => if name == lit("--base-dir") {
                    parse_from(args, next, Settings { base_dir: v, ..c })
                } else if name == lit("-a") || name == lit("--address") {
                    parse_from(args, next, Settings { address: v, ..c })
                } else if name == lit("-p") || name == lit("--port") {
                    match parse_decimal(v) {
                        Some(n) => parse_from(args, next, Settings { port: n, ..c }),
                        None => (c, ArgsOutcome::InvalidVal(lit("--port"), v)),
                    }
                } else if name == lit("-t") || name == lit("--threads") {
                    match parse_decimal(v) {
                        Some(n) => parse_from(args, next, Settings { threads: n, ..c }),
                        None => (c, ArgsOutcome::InvalidVal(lit("--threads"), v)),
                    }
                } else {
                    (c, ArgsOutcome::InvalidArg(name))
                },
            }
        }
    }
}

/// Whether `r` is the result that outcome `o` describes.
pub open spec fn reports(r: Result<ParseOutcome, CliError>, o: ArgsOutcome) -> bool {
    match o {
        ArgsOutcome::Run => r == Ok::<ParseOutcome, CliError>(ParseOutcome::Run),
        ArgsOutcome::ShortHelp => r == Ok::<ParseOutcome, CliError>(ParseOutcome::ShortHelp),
        ArgsOutcome::LongHelp => r == Ok::<ParseOutcome, CliError>(ParseOutcome::LongHelp),
        ArgsOutcome::InvalidArg(a) => r matches Err(CliError::InvalidArg(x)) && x.spec_bytes() == a,
        ArgsOutcome::InvalidVal(a, v) => r matches Err(CliError::InvalidVal(x, y))
            && x.spec_bytes() == a && y.spec_bytes() == v,
        ArgsOutcome::MissingVal(a) => r matches Err(CliError::MissingVal(x)) && x.spec_bytes() == a,
    }
}

fn is_lit(s: &[u8], l: &str) -> (r: bool)
    ensures
        r == (s@ == lit(l)),
{
    bytes_equal(s, l.as_bytes())
}

fn find_eq_from(s: &[u8], from: usize) -> (r: Option<usize>)
    requires
        from <= s@.len(),
    ensures
        r is None <==> find_eq(s@, from as int) is None,
        r matches Some(k) ==> find_eq(s@, from as int) == Some(k as int) && from <= k < s@.len()
            && s@[k as int] == 0x3du8,
    decreases s@.len() - from,
{
    if from >= s.len() {
        None
    } else if s[from] == 0x3d {
        Some(from)
    } else {
        find_eq_from(s, from + 1)
    }
}

proof fn lemma_digits_grow(d: Seq<u8>, k: int)
    requires
        0 <= k <= d.len(),
    ensures
        digits_value(d.subrange(0, k)) <= digits_value(d),
    decreases d.len() - k,
{
    if k < d.len() {
        lemma_digits_grow(d, k + 1);
        assert(d.subrange(0, k + 1).drop_last() =~= d.subrange(0, k));
    } else {
        assert(d.subrange(0, k) =~= d);
    }
}

/// Reads a decimal number as `usize`'s `FromStr` does: an optional `+`,
/// then digits only, and a value that fits.
pub fn parse_usize(v: &[u8]) -> (r: Option<usize>)
    ensures
        r == parse_decimal(v@),
{
    let start: usize = if v.len() > 0 && v[0] == 0x2b { 1 } else { 0 };
    let ghost d = unsigned_digits(v@);
    assert(d =~= v@.subrange(start as int, v@.len() as int));
    if start >= v.len() {
        return None;
    }
    let mut acc: usize = 0;
    let mut i: usize = start;
    assert(d.subrange(0, 0) =~= Seq::<u8>::empty());
    while i < v.len()
        invariant
            start < v@.len(),
            start <= i <= v@.len(),
            d == v@.subrange(start as int, v@.len() as int),
            d == unsigned_digits(v@),
            forall|k: int| 0 <= k < i - start ==> is_digit(#[trigger] d[k]),
            acc == digits_value(d.subrange(0, i - start)),
        decreases v@.len() - i,
    {
        let b = v[i];
        if !(0x30 <= b && b <= 0x39) {
            assert(!is_digit(d[i - start]));
            assert(!(forall|k: int| 0 <= k < d.len() ==> is_digit(#[trigger] d[k])));
            assert(parse_decimal(v@) is None);
            return None;
        }
        assert(d.subrange(0, i - start + 1).drop_last() =~= d.subrange(0, i - start));
        let ghost next_value = digits_value(d.subrange(0, i - start + 1));
        assert(d.subrange(0, i - start + 1).last() == b);
        assert(next_value == acc * 10 + (b - 0x30));
        match acc.checked_mul(10) {
            Some(m) => match m.checked_add((b - 0x30) as usize) {
                Some(n) => {
                    acc = n;
                },
                None => {
                    proof {
                        lemma_digits_grow(d, i - start + 1);
                    }
                    assert(parse_decimal(v@) is None);
                    return None;
                },
            },
            None => {
                proof {
                    lemma_digits_grow(d, i - start + 1);
                }
                return None;
            },
        }
        i = i + 1;
    }
    assert(d.subrange(0, i - start) =~= d);
    Some(acc)
}

impl<'a> CliError<'a> {
    /// The message that describes the error to a person.
    pub fn to_string(&self) -> (r: String)
        ensures
            self matches CliError::InvalidArg(a) ==> r@ == "Invalid argument "@ + a@ + " found."@,
            self matches CliError::MissingVal(a) ==> r@ == "Missing value for argument "@ + a@,
            self matches CliError::InvalidVal(a, v) ==> r@ == "Invalid value "@ + v@
                + " for argument "@ + a@ + " found"@,
            self matches CliError::IOError(e) ==> r@ == match e.message {
                Some(m) => m@,
                None => Seq::empty(),
            },
    {
        match self {
            CliError::InvalidArg(a) => {
                let mut r = String::from_str("Invalid argument ");
                r.append(a);
                r.append(" found.");
                r
            },
            CliError::MissingVal(a) => {
                let mut r = String::from_str("Missing value for argument ");
                r.append(a);
                r
            },
            CliError::InvalidVal(a, v) => {
                let mut r = String::from_str("Invalid value ");
                r.append(v);
                r.append(" for argument ");
                r.append(a);
                r.append(" found");
                r
            },
            CliError::IOError(e) => match &e.message {
                Some(m) => m.clone(),
                None => String::new(),
            },
        }
    }
}

impl Config {
    /// The default configuration serving `base_dir`: on 127.0.0.1:8080,
    /// four threads, verbose, with directory listings.
    pub fn with_base_dir(base_dir: Vec<u8>) -> (r: Config)
        ensures
            r.address@ == "127.0.0.1"@,
            r.base_dir == base_dir,
            r.list_dir,
            r.port == 8080,
            r.threads == 4,
            r.verbose,
    {
        Config {
            address: String::from_str("127.0.0.1"),
            base_dir,
            list_dir: true,
            port: 8080,
            threads: 4,
            verbose: true,
        }
    }

    /// The first lines of both help texts.
    fn help_header() -> (r: &'static str)
        ensures
            r@ == HELP_HEADER@,
    {
        HELP_HEADER
    }

    /// The help text in its long form.
    pub fn help_long() -> (r: String)
        ensures
            r@ == HELP_HEADER@ + HELP_LONG_BODY@,
    {
        let mut r = String::from_str(Config::help_header());
        r.append(HELP_LONG_BODY);
        r
    }

    /// The help text in its short form.
    pub fn help_short() -> (r: String)
        ensures
            r@ == HELP_HEADER@ + HELP_SHORT_BODY@,
    {
        let mut r = String::from_str(Config::help_header());
        r.append(HELP_SHORT_BODY);
        r
    }

    /// Reads command line arguments into `conf`: flags switch settings off,
    /// options take a value (the next argument, or what follows `=`), and
    /// `-h` or `--help` stop the reading to ask for a help text. An unknown
    /// option, a missing value or a number that does not read is an error.
    /// The base directory is taken as written.
    pub fn parse_args<'a>(args: &'a Vec<String>, conf: &mut Config) -> (r: Result<
        ParseOutcome,
        CliError<'a>,
    >)
        ensures
            settings_of(*final(conf)) == parse_from(arg_bytes(args@), 0, settings_of(*old(conf))).0,
            reports(r, parse_from(arg_bytes(args@), 0, settings_of(*old(conf))).1),
    {
        let ghost all = arg_bytes(args@);
        let ghost start = settings_of(*conf);
        let mut i: usize = 0;
        while i < args.len()
            invariant
                i <= args@.len(),
                all == arg_bytes(args@),
                start == settings_of(*old(conf)),
                parse_from(all, 0, start) == parse_from(all, i as int, settings_of(*conf)),
            decreases args@.len() - i,
        {
            let el: &'a str = args[i].as_str();
            let eb = el.as_bytes();
            assert(eb@ == all[i as int]);
            if is_lit(eb, "-q") || is_lit(eb, "--quiet") {
                conf.verbose = false;
                i = i + 1;
                continue;
            }
            if is_lit(eb, "--no-list-dir") {
                conf.list_dir = false;
                i = i + 1;
                continue;
            }
            if is_lit(eb, "-h") {
                return Ok(ParseOutcome::ShortHelp);
            }
            if is_lit(eb, "--help") {
                return Ok(ParseOutcome::LongHelp);
            }
            let name: &'a str;
            let val: &'a str;
            let next: usize;
            match find_eq_from(eb, 0) {
                Some(e) => {
                    assert(e < eb@.len());
                    assert(eb@.len() == eb.len());
                    let end = match find_eq_from(eb, e + 1) {
                        Some(f) => f,
                        None => eb.len(),
                    };
                    proof {
                        encode_utf8_valid_utf8(el@);
                        is_char_boundary_start_end_of_seq(eb@);
                        is_char_boundary_iff_not_is_continuation_byte(eb@, e as int);
                        lemma_boundary_after_ascii(eb@, e as int);
                        if end < eb@.len() {
                            is_char_boundary_iff_not_is_continuation_byte(eb@, end as int);
                        }
                    }
                    name = slice_str(el, 0, e);
                    val = slice_str(el, e + 1, end);
                    next = i + 1;
                },
                None => {
                    name = el;
                    if i + 1 < args.len() {
                        val = args[i + 1].as_str();
                        next = i + 2;
                    } else {
                        return Err(CliError::MissingVal(name));
                    }
                },
            }
            let nb = name.as_bytes();
            let vb = val.as_bytes();
            if is_lit(nb, "--base-dir") {
                conf.base_dir = val.as_bytes_vec();
            } else if is_lit(nb, "-a") || is_lit(nb, "--address") {
                conf.address = String::from_str(val);
            } else if is_lit(nb, "-p") || is_lit(nb, "--port") {
                match parse_usize(vb) {
                    Some(n) => {
                        conf.port = n;
                    },
                    None => {
                        return Err(CliError::InvalidVal("--port", val));
                    },
                }
            } else if is_lit(nb, "-t") || is_lit(nb, "--threads") {
                match parse_usize(vb) {
                    Some(n) => {
                        conf.threads = n;
                    },
                    None => {
                        return Err(CliError::InvalidVal("--threads", val));
                    },
                }
            } else {
                return Err(CliError::InvalidArg(name));
            }
            i = next;
        }
        Ok(ParseOutcome::Run)
    }
}

} // verus!
