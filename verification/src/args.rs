//! Command-line arguments: the launcher takes one optional option, the path
//! of its configuration file, as `-c <path>`, `--config <path>` or
//! `--config=<path>`.

use vstd::prelude::*;
use vstd::string::*;
use crate::text::{match_at, str_chars, str_eq};

verus! {

/// The parsed command line.
#[derive(Debug)]
pub struct Args {
    pub config: Option<String>,
}

/// Why a command line is refused.
#[derive(Debug, PartialEq, Eq)]
pub enum ArgsError {
    /// An argument is neither the config option nor its value.
    UnknownArgument,
    /// The config option stands last, with no value after it.
    MissingValue,
    /// The config option is given twice.
    DuplicateConfig,
}

/// Whether an argument is the config option expecting its value next.
pub open spec fn is_config_flag(a: Seq<char>) -> bool {
    a == "-c"@ || a == "--config"@
}

/// The value carried by a `--config=<path>` argument, if it is one.
pub open spec fn config_inline_value(a: Seq<char>) -> Option<Seq<char>> {
    if a.len() >= "--config="@.len() && a.take("--config="@.len() as int) == "--config="@ {
        Some(a.skip("--config="@.len() as int))
    } else {
        None
    }
}

/// The config path the arguments name, threading the value found so far:
/// each argument is the option with its value following, the option with an
/// inline value, or an error; naming the option twice is an error.
pub open spec fn parse_from(args: Seq<Seq<char>>, acc: Option<Seq<char>>) -> Result<
    Option<Seq<char>>,
    ArgsError,
>
    decreases args.len(),
{
    if args.len() == 0 {
        Ok(acc)
    } else if is_config_flag(args[0]) {
        if acc is Some {
            Err(ArgsError::DuplicateConfig)
        } else if args.len() < 2 {
            Err(ArgsError::MissingValue)
        } else {
            parse_from(args.skip(2), Some(args[1]))
        }
    } else if config_inline_value(args[0]) is Some {
        if acc is Some {
            Err(ArgsError::DuplicateConfig)
        } else {
            parse_from(args.skip(1), config_inline_value(args[0]))
        }
    } else {
        Err(ArgsError::UnknownArgument)
    }
}

/// What a whole command line (without the program name) parses to.
pub open spec fn parse_spec(args: Seq<Seq<char>>) -> Result<Option<Seq<char>>, ArgsError> {
    parse_from(args, None)
}

/// Whether `a` starts with the characters of `--config=`.
fn has_inline_prefix(a: &Vec<char>) -> (r: bool)
    ensures
        r == (config_inline_value(a@) is Some),
{
    let p = str_chars("--config=");
    proof {
        reveal_strlit("--config=");
    }
    if a.len() < p.len() {
        return false;
    }
    let m = match_at(a, &p, 0);
    proof {
        assert(a@.subrange(0, 0 + p@.len() as int) =~= a@.take("--config="@.len() as int));
    }
    m
}

/// Parses the arguments after the program name: an optional configuration
/// path, and an error for anything else.
pub fn parse_arguments(args: &Vec<String>) -> (r: Result<Args, ArgsError>)
    ensures
        match r {
            Ok(a) => parse_spec(args.deep_view()) == Ok::<Option<Seq<char>>, ArgsError>(
                a.config.deep_view(),
            ),
            Err(e) => parse_spec(args.deep_view()) == Err::<Option<Seq<char>>, ArgsError>(e),
        },
{
    let ghost av = args.deep_view();
    let n = args.len();
    let mut config: Option<String> = None;
    let mut i: usize = 0;
    proof {
        assert(av.skip(0) =~= av);
    }
    while i < n
        invariant
            av == args.deep_view(),
            i <= n == args@.len() && n == av.len(),
            parse_spec(av) == parse_from(av.skip(i as int), config.deep_view()),
        decreases n - i,
    {
        proof {
            assert(av[i as int] == args@[i as int]@);
            assert(av.skip(i as int)[0] == av[i as int]);
            assert(av.skip(i as int).skip(1) =~= av.skip(i + 1));
        }
        let a = &args[i];
        if str_eq(a.as_str(), "-c") || str_eq(a.as_str(), "--config") {
            if config.is_some() {
                return Err(ArgsError::DuplicateConfig);
            }
            if i + 1 >= n {
                return Err(ArgsError::MissingValue);
            }
            proof {
                assert(av[i + 1] == args@[i + 1]@);
                assert(av.skip(i as int)[1] == av[i + 1]);
                assert(av.skip(i as int).skip(2) =~= av.skip(i + 2));
            }
            config = Some(args[i + 1].clone());
            i = i + 2;
        } else {
            let ac = str_chars(a.as_str());
            if has_inline_prefix(&ac) {
                if config.is_some() {
                    return Err(ArgsError::DuplicateConfig);
                }
                let p = str_chars("--config=");
                proof {
                    reveal_strlit("--config=");
                }
                let val = crate::text::copy_range(&ac, p.len(), ac.len());
                proof {
                    assert(val@ =~= av[i as int].skip("--config="@.len() as int));
                }
                config = Some(crate::text::chars_to_string(&val));
                i = i + 1;
            } else {
                return Err(ArgsError::UnknownArgument);
            }
        }
    }
    proof {
        assert(av.skip(n as int) =~= Seq::<Seq<char>>::empty());
    }
    Ok(Args { config })
}

} // verus!
