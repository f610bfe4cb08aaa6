//! The command line: a mode, a query, an optional start directory, then options.
use vstd::prelude::*;
use crate::config::SearchConfig;
use crate::pattern::{adjusted_chars, same_text};
use crate::scan::SearchMode;

verus! {

/// What the command line asks for.
pub enum Command {
    /// Run a search with this configuration.
    Search(SearchConfig),
    /// Show the usage text.
    Help,
}

/// Why a command line was refused.
pub enum ArgError {
    /// Fewer than a mode and a query were given.
    Insufficient,
    /// The mode is none of the known ones.
    UnknownMode(String),
    /// An argument that starts with `-` is no known option.
    UnknownOption(String),
    /// No start directory was given and the working directory is unknown.
    NoWorkingDirectory,
    /// An option that takes a value stands last.
    MissingValue(String),
    /// An option's value is not one it takes: the option, then the value.
    InvalidValue(String, String),
}

pub open spec fn is_digit(c: char) -> bool {
    '0' <= c && c <= '9'
}

/// The value of a string of decimal digits.
pub open spec fn digits_value(s: Seq<char>) -> nat
    decreases s.len(),
{
    if s.len() == 0 {
        0
    } else {
        digits_value(s.drop_last()) * 10 + ((s.last() as nat) - ('0' as nat)) as nat
    }
}

/// The digits of an unsigned number as written: without its optional leading `+`.
pub open spec fn unsigned_digits(s: Seq<char>) -> Seq<char> {
    if s.len() > 0 && s[0] == '+' {
        s.drop_first()
    } else {
        s
    }
}

/// The `usize` that `s` writes in decimal, with an optional leading `+`, if it writes one.
pub open spec fn decimal_usize(s: Seq<char>) -> Option<usize> {
    let d = unsigned_digits(s);
    if d.len() > 0 && (forall|i: int| 0 <= i < d.len() ==> is_digit(d[i])) && digits_value(d)
        <= usize::MAX {
        Some(digits_value(d) as usize)
    } else {
        None
    }
}

proof fn lemma_digits_value_grows(s: Seq<char>, k: int)
    requires
        0 <= k <= s.len(),
    ensures
        digits_value(s) >= digits_value(s.take(k)),
    decreases s.len(),
{
    if k < s.len() {
        assert(s.drop_last().take(k) == s.take(k));
        lemma_digits_value_grows(s.drop_last(), k);
    } else {
        assert(s.take(k) == s);
    }
}

/// Reads a decimal `usize`, as `str::parse` does: an optional `+`, then one or more
/// digits, with a value that fits.
pub fn parse_usize(s: &str) -> (r: Option<usize>)
    ensures
        r == decimal_usize(s@),
{
    let c = adjusted_chars(s, true);
    let start: usize = if c.len() > 0 && c[0] == '+' {
        1
    } else {
        0
    };
    let ghost d = unsigned_digits(s@);
    proof {
        assert(d == c@.subrange(start as int, c@.len() as int));
    }
    if start >= c.len() {
        return None;
    }
    let mut v: usize = 0;
    let mut i: usize = start;
    while i < c.len()
        invariant
            c@ == s@,
            d == unsigned_digits(s@),
            d == c@.subrange(start as int, c@.len() as int),
            start <= i <= c.len(),
            v == digits_value(d.take(i - start)),
            forall|k: int| 0 <= k < i - start ==> is_digit(d[k]),
        decreases c.len() - i,
    {
        let ch = c[i];
        proof {
            assert(d[i - start] == ch);
            assert(d.take(i - start + 1).drop_last() == d.take(i - start));
        }
        if !('0' <= ch && ch <= '9') {
            proof {
                assert(!is_digit(d[i - start]));
            }
            return None;
        }
        let digit = (ch as u32 - '0' as u32) as usize;
        proof {
            let k = i - start;
            assert(d.take(k + 1).last() == ch);
            assert(digits_value(d.take(k + 1)) == digits_value(d.take(k)) * 10 + digit);
        }
        match v.checked_mul(10) {
            None => {
                proof {
                    lemma_digits_value_grows(d, i - start + 1);
                }
                return None;
            },
            Some(t) => match t.checked_add(digit) {
                None => {
                    proof {
                        lemma_digits_value_grows(d, i - start + 1);
                    }
                    return None;
                },
                Some(n) => {
                    v = n;
                },
            },
        }
        i += 1;
    }
    proof {
        assert(d.take(d.len() as int) == d);
    }
    Some(v)
}

/// The known spellings of each mode, and of the request for help.
pub open spec fn mode_of(a: Seq<char>) -> Option<SearchMode> {
    if a == "/FM"@ || a == "/fm"@ || a == "-f"@ {
        Some(SearchMode::File)
    } else if a == "/SDM"@ || a == "/sdm"@ || a == "-d"@ {
        Some(SearchMode::Directory)
    } else if a == "/BOTH"@ || a == "/both"@ || a == "-b"@ {
        Some(SearchMode::Both)
    } else {
        None
    }
}

pub open spec fn is_help(a: Seq<char>) -> bool {
    a == "/?"@ || a == "/help"@ || a == "-h"@ || a == "--help"@
}

/// A worker count that an option gives: a decimal number of at least 1.
pub open spec fn thread_count(v: Seq<char>) -> Option<usize> {
    match decimal_usize(v) {
        Some(n) => if n >= 1 {
            Some(n)
        } else {
            None
        },
        None => None,
    }
}

/// The configuration after the options from position `i` on are applied to `c`, or the
/// first option that is refused: one unknown, one that takes a value and stands last,
/// or one whose value does not read as it must (a worker count of at least 1, or a
/// decimal depth).
pub open spec fn apply_options(args: Seq<String>, i: int, c: SearchConfig) -> Result<
    SearchConfig,
    ArgError,
>
    decreases args.len() - i,
{
    if i < 0 || i >= args.len() {
        Ok(c)
    } else {
        let a = args[i]@;
        let has_value = i + 1 < args.len();
        if a == "--threads"@ || a == "-t"@ {
            if !has_value {
                Err(ArgError::MissingValue(args[i]))
            } else {
                match thread_count(args[i + 1]@) {
                    Some(n) => apply_options(args, i + 2, SearchConfig { max_threads: n, ..c }),
                    None => Err(ArgError::InvalidValue(args[i], args[i + 1])),
                }
            }
        } else if a == "--log"@ || a == "-l"@ {
            if !has_value {
                Err(ArgError::MissingValue(args[i]))
            } else {
                apply_options(args, i + 2, SearchConfig { log_path: Some(args[i + 1]), ..c })
            }
        } else if a == "--case-insensitive"@ || a == "-i"@ {
            apply_options(args, i + 1, SearchConfig { case_sensitive: false, ..c })
        } else if a == "--depth"@ || a == "-D"@ {
            if !has_value {
                Err(ArgError::MissingValue(args[i]))
            } else {
                match decimal_usize(args[i + 1]@) {
                    Some(n) => apply_options(args, i + 2, SearchConfig { max_depth: Some(n), ..c }),
                    None => Err(ArgError::InvalidValue(args[i], args[i + 1])),
                }
            }
        } else if a == "--dfs"@ {
            apply_options(args, i + 1, SearchConfig { breadth_first: false, ..c })
        } else if a == "--no-wildcards"@ || a == "-nw"@ {
            apply_options(args, i + 1, SearchConfig { use_wildcards: false, ..c })
        } else if a.len() > 0 && a[0] == '-' {
            Err(ArgError::UnknownOption(args[i]))
        } else {
            apply_options(args, i + 1, c)
        }
    }
}

/// The default worker count: the machine's parallelism, and at least 1.
pub open spec fn default_threads(cpus: usize) -> usize {
    if cpus == 0 {
        1
    } else {
        cpus
    }
}

/// What a whole command line asks for. `args[0]` is the program's name; `cwd` is the
/// working directory, the start directory when none is given; `cpus` is the number of
/// threads the machine runs in parallel, the default worker count (at least 1).
pub open spec fn parse_spec(args: Seq<String>, cwd: Option<String>, cpus: usize) -> Result<
    Command,
    ArgError,
> {
    if args.len() < 3 {
        Err(ArgError::Insufficient)
    } else if is_help(args[1]@) {
        Ok(Command::Help)
    } else {
        match mode_of(args[1]@) {
            None => Err(ArgError::UnknownMode(args[1])),
            Some(mode) => {
                let start = if args.len() >= 4 {
                    Some(args[3])
                } else {
                    cwd
                };
                match start {
                    None => Err(ArgError::NoWorkingDirectory),
                    Some(dir) => {
                        let base = SearchConfig {
                            query: args[2],
                            start_dir: dir,
                            mode,
                            max_threads: default_threads(cpus),
                            use_wildcards: true,
                            case_sensitive: true,
                            log_path: None,
                            max_depth: None,
                            breadth_first: true,
                        };
                        match apply_options(args, 4, base) {
                            Ok(c) => Ok(Command::Search(c)),
                            Err(e) => Err(e),
                        }
                    },
                }
            },
        }
    }
}

fn read_mode(a: &str) -> (r: Option<SearchMode>)
    ensures
        r == mode_of(a@),
{
    if same_text(a, "/FM") || same_text(a, "/fm") || same_text(a, "-f") {
        Some(SearchMode::File)
    } else if same_text(a, "/SDM") || same_text(a, "/sdm") || same_text(a, "-d") {
        Some(SearchMode::Directory)
    } else if same_text(a, "/BOTH") || same_text(a, "/both") || same_text(a, "-b") {
        Some(SearchMode::Both)
    } else {
        None
    }
}

fn read_help(a: &str) -> (r: bool)
    ensures
        r == is_help(a@),
{
    same_text(a, "/?") || same_text(a, "/help") || same_text(a, "-h") || same_text(a, "--help")
}

/// Whether `a` starts with `-`.
fn starts_with_dash(a: &str) -> (r: bool)
    ensures
        r == (a@.len() > 0 && a@[0] == '-'),
{
    let c = adjusted_chars(a, true);
    c.len() > 0 && c[0] == '-'
}

/// Reads a command line: `args[0]` is the program's name, then a mode, a query, an
/// optional start directory (else `cwd`), then options.
pub fn parse_arguments(args: &Vec<String>, cwd: Option<String>, cpus: usize) -> (r: Result<
    Command,
    ArgError,
>)
    ensures
        r == parse_spec(args@, cwd, cpus),
        match r {
            Ok(Command::Search(c)) => c.max_threads >= 1,
            _ => true,
        },
{
    if args.len() < 3 {
        return Err(ArgError::Insufficient);
    }
    if read_help(args[1].as_str()) {
        return Ok(Command::Help);
    }
    let mode = match read_mode(args[1].as_str()) {
        Some(m) => m,
        None => {
            return Err(ArgError::UnknownMode(args[1].clone()));
        },
    };
    let start_dir = if args.len() >= 4 {
        args[3].clone()
    } else {
        match cwd {
            Some(d) => d,
            None => {
                return Err(ArgError::NoWorkingDirectory);
            },
        }
    };
    let mut config = SearchConfig {
        query: args[2].clone(),
        start_dir,
        mode,
        max_threads: if cpus == 0 {
            1
        } else {
            cpus
        },
        use_wildcards: true,
        case_sensitive: true,
        log_path: None,
        max_depth: None,
        breadth_first: true,
    };
    let ghost base = config;
    let ghost outcome = match apply_options(args@, 4, base) {
        Ok(c) => Ok(Command::Search(c)),
        Err(e) => Err(e),
    };
    assert(parse_spec(args@, cwd, cpus) == outcome);
    let mut i: usize = 4;
    while i < args.len()
        invariant
            4 <= i,
            parse_spec(args@, cwd, cpus) == outcome,
            outcome == match apply_options(args@, 4, base) {
                Ok(c) => Ok(Command::Search(c)),
                Err(e) => Err(e),
            },
            config.max_threads >= 1,
            apply_options(args@, i as int, config) == apply_options(args@, 4, base),
        decreases args.len() - i,
    {
        let a = args[i].as_str();
        let has_value = i + 1 < args.len();
        if same_text(a, "--threads") || same_text(a, "-t") {
            if !has_value {
                return Err(ArgError::MissingValue(args[i].clone()));
            }
            match parse_usize(args[i + 1].as_str()) {
                Some(n) if n >= 1 => {
                    config.max_threads = n;
                },
                _ => {
                    return Err(ArgError::InvalidValue(args[i].clone(), args[i + 1].clone()));
                },
            }
            i += 1;
        } else if same_text(a, "--log") || same_text(a, "-l") {
            if !has_value {
                return Err(ArgError::MissingValue(args[i].clone()));
            }
            config.log_path = Some(args[i + 1].clone());
            i += 1;
        } else if same_text(a, "--case-insensitive") || same_text(a, "-i") {
            config.case_sensitive = false;
        } else if same_text(a, "--depth") || same_text(a, "-D") {
            if !has_value {
                return Err(ArgError::MissingValue(args[i].clone()));
            }
            match parse_usize(args[i + 1].as_str()) {
                Some(n) => {
                    config.max_depth = Some(n);
                },
                None => {
                    return Err(ArgError::InvalidValue(args[i].clone(), args[i + 1].clone()));
                },
            }
            i += 1;
        } else if same_text(a, "--dfs") {
            config.breadth_first = false;
        } else if same_text(a, "--no-wildcards") || same_text(a, "-nw") {
            config.use_wildcards = false;
        } else if starts_with_dash(a) {
            return Err(ArgError::UnknownOption(args[i].clone()));
        }
        i += 1;
    }
    Ok(Command::Search(config))
}

} // verus!
