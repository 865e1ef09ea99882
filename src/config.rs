//! Options of a run, read from command-line arguments.
use vstd::prelude::*;
use vstd::string::StrSliceExecFns;

verus! {

/// Options of a dump or a reverse dump.
pub struct Config {
    /// Number of bytes shown on each dump line.
    pub cols: usize,
    /// Number of bytes written together, without a space, on a dump line.
    pub byte_groups: usize,
    /// Read a dump back into bytes instead of writing one.
    pub reverse: bool,
    /// Path of the file to read; standard input when absent.
    pub input: Option<String>,
    /// Path of the file to write; standard output when absent.
    pub output: Option<String>,
}

/// Why the arguments did not give a configuration.
#[derive(Debug, Clone, Copy, PartialEq, Eq, Structural)]
pub enum ConfigError {
    /// A flag that takes a value came last.
    MissingValue,
    /// A flag's value is not a number in range.
    InvalidValue,
    /// An argument starting with `-` names no flag.
    UnknownFlag,
    /// `-h` asked for the usage summary.
    UsageRequested,
    /// `-v` asked for the version.
    VersionRequested,
}

impl ConfigError {
    /// A short description of the error.
    pub fn message(&self) -> &'static str {
        match self {
            ConfigError::MissingValue => "missing value for flag",
            ConfigError::InvalidValue => "invalid value for flag",
            ConfigError::UnknownFlag => "unknown flag provided",
            ConfigError::UsageRequested => "usage requested",
            ConfigError::VersionRequested => "version requested",
        }
    }
}

/// Largest accepted value of `cols` and `byte_groups`.
pub const MAX_WIDTH: usize = 256;

pub open spec fn is_decimal_digit(c: char) -> bool {
    '0' <= c && c <= '9'
}

/// The value of a run of decimal digits.
pub open spec fn digits_value(s: Seq<char>) -> nat
    decreases s.len(),
{
    if s.len() == 0 {
        0
    } else {
        digits_value(s.drop_last()) * 10 + (s.last() as u32 - 48) as nat
    }
}

/// The number that `s` writes as an optional `+` followed by one or more decimal
/// digits.
pub open spec fn unsigned_text(s: Seq<char>) -> Option<nat> {
    let d = if s.len() > 0 && s[0] == '+' {
        s.skip(1)
    } else {
        s
    };
    if d.len() > 0 && forall|i: int| 0 <= i < d.len() ==> is_decimal_digit(#[trigger] d[i]) {
        Some(digits_value(d))
    } else {
        None
    }
}

/// Relies on `str::parse::<usize>`: an optional `+` followed by one or more
/// decimal digits, whose value fits in `usize`, and nothing else.
#[verifier::external_body]
fn parse_usize(s: &str) -> (r: Option<usize>)
    ensures
        r == match unsigned_text(s@) {
            Some(n) => if n <= usize::MAX {
                Some(n as usize)
            } else {
                None
            },
            None => None,
        },
{
    s.parse::<usize>().ok()
}

/// The value given to a flag: a number from 0 to `MAX_WIDTH`.
pub open spec fn flag_value(value: Option<Seq<char>>) -> Result<nat, ConfigError> {
    match value {
        None => Err(ConfigError::MissingValue),
        Some(v) => match unsigned_text(v) {
            Some(n) => if n <= MAX_WIDTH {
                Ok(n)
            } else {
                Err(ConfigError::InvalidValue)
            },
            None => Err(ConfigError::InvalidValue),
        },
    }
}

pub open spec fn opt_view(o: Option<String>) -> Option<Seq<char>> {
    match o {
        Some(s) => Some(s@),
        None => None,
    }
}

/// Reads the flags that start at `args[i]` onto the options gathered so far. Gives
/// `(cols, byte_groups, reverse, k)`, `k` the index of the first argument that is
/// not a flag, or the error of the first flag that cannot be read.
pub open spec fn read_flags(
    args: Seq<Seq<char>>,
    i: nat,
    cols: nat,
    byte_groups: nat,
    reverse: bool,
) -> Result<(nat, nat, bool, nat), ConfigError>
    decreases args.len() - i,
{
    if i >= args.len() || !(args[i as int].len() > 0 && args[i as int][0] == '-') {
        Ok((cols, byte_groups, reverse, i))
    } else {
        let a = args[i as int];
        if a == seq!['-', 'c'] || a == seq!['-', 'g'] {
            if i + 1 >= args.len() {
                Err(ConfigError::MissingValue)
            } else {
                match flag_value(Some(args[(i + 1) as int])) {
                    Err(e) => Err(e),
                    Ok(v) => if a == seq!['-', 'c'] {
                        read_flags(args, i + 2, v, byte_groups, reverse)
                    } else if v == 0 {
                        Err(ConfigError::InvalidValue)
                    } else {
                        read_flags(args, i + 2, cols, v, reverse)
                    },
                }
            }
        } else if a == seq!['-', 'r'] {
            read_flags(args, i + 1, cols, byte_groups, true)
        } else if a == seq!['-', 'h'] {
            Err(ConfigError::UsageRequested)
        } else if a == seq!['-', 'v'] {
            Err(ConfigError::VersionRequested)
        } else {
            Err(ConfigError::UnknownFlag)
        }
    }
}

pub open spec fn args_view(args: Seq<String>) -> Seq<Seq<char>> {
    args.map_values(|a: String| a@)
}

/// The configuration that `args` give: flags first, with 16 columns, groups of
/// 2 bytes and a forward dump unless they say otherwise; then the input path and
/// the output path, each optional.
pub open spec fn config_of(args: Seq<String>, r: Result<Config, ConfigError>) -> bool {
    match read_flags(args_view(args), 0, 16, 2, false) {
        Ok((cols, byte_groups, reverse, k)) => r matches Ok(c) && c.cols == cols && c.byte_groups
            == byte_groups && c.reverse == reverse && opt_view(c.input) == (if k < args.len() {
            Some(args[k as int]@)
        } else {
            None::<Seq<char>>
        }) && opt_view(c.output) == (if k + 1 < args.len() {
            Some(args[(k + 1) as int]@)
        } else {
            None::<Seq<char>>
        }),
        Err(e) => r matches Err(x) && x == e,
    }
}

fn is_flag(a: &str) -> (r: bool)
    ensures
        r == (a@.len() > 0 && a@[0] == '-'),
{
    a.unicode_len() > 0 && a.get_char(0) == '-'
}

fn is_named(a: &str, c: char) -> (r: bool)
    ensures
        r == (a@ == seq!['-', c]),
{
    if a.unicode_len() == 2 && a.get_char(0) == '-' && a.get_char(1) == c {
        assert(a@ =~= seq!['-', c]);
        true
    } else {
        false
    }
}

impl Config {
    /// The options hold values that a dump can be run with.
    pub open spec fn wf(&self) -> bool {
        &&& self.cols <= MAX_WIDTH
        &&& 1 <= self.byte_groups <= MAX_WIDTH
    }

    pub fn parse_value(value: Option<String>) -> (r: Result<usize, ConfigError>)
        ensures
            match flag_value(opt_view(value)) {
                Ok(n) => r == Ok::<usize, ConfigError>(n as usize),
                Err(e) => r == Err::<usize, ConfigError>(e),
            },
    {
        match value {
            None => Err(ConfigError::MissingValue),
            Some(v) => match parse_usize(v.as_str()) {
                Some(n) => if n <= MAX_WIDTH {
                    Ok(n)
                } else {
                    Err(ConfigError::InvalidValue)
                },
                None => Err(ConfigError::InvalidValue),
            },
        }
    }

    /// Reads a configuration from command-line arguments, the program name left out.
    pub fn build(args: Vec<String>) -> (r: Result<Config, ConfigError>)
        ensures
            config_of(args@, r),
            r matches Ok(c) ==> c.wf(),
    {
        let ghost view = args_view(args@);
        let n = args.len();
        let mut cols: usize = 16;
        let mut byte_groups: usize = 2;
        let mut reverse = false;
        let mut i: usize = 0;
        while i < n && is_flag(args[i].as_str())
            invariant
                i <= n == args@.len(),
                view == args_view(args@),
                cols <= MAX_WIDTH,
                1 <= byte_groups <= MAX_WIDTH,
                read_flags(view, 0, 16, 2, false) == read_flags(
                    view,
                    i as nat,
                    cols as nat,
                    byte_groups as nat,
                    reverse,
                ),
            decreases n - i,
        {
            let a = args[i].as_str();
            assert(view[i as int] == a@);
            if is_named(a, 'c') || is_named(a, 'g') {
                if i + 1 >= n {
                    return Err(ConfigError::MissingValue);
                }
                assert(view[i + 1] == args@[i + 1]@);
                let v = Self::parse_value(Some(args[i + 1].clone()))?;
                if is_named(a, 'c') {
                    cols = v;
                } else if v == 0 {
                    return Err(ConfigError::InvalidValue);
                } else {
                    byte_groups = v;
                }
                i = i + 2;
            } else if is_named(a, 'r') {
                reverse = true;
                i = i + 1;
            } else if is_named(a, 'h') {
                return Err(ConfigError::UsageRequested);
            } else if is_named(a, 'v') {
                return Err(ConfigError::VersionRequested);
            } else {
                return Err(ConfigError::UnknownFlag);
            }
        }
        let input = if i < n {
            Some(args[i].clone())
        } else {
            None
        };
        let output = if i < n && i + 1 < n {
            Some(args[i + 1].clone())
        } else {
            None
        };
        Ok(Config { cols, byte_groups, reverse, input, output })
    }
}

} // verus!
