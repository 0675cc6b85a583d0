//! The settings of the command-line program, resolved from its arguments and
//! the environment.

use vstd::prelude::*;
use crate::environment::{bool_value, getenv, getenv_bool, getenv_int, int_value, resolved, Environment};

verus! {

/// The values given on the command line, each absent where its option was not
/// given.
pub struct Args {
    /// Server port.
    pub port: Option<u16>,
    /// API key.
    pub api_key: Option<String>,
    /// Whether verbose output was asked for.
    pub verbose: bool,
    /// Path of a configuration file.
    pub configuration: Option<String>,
}

/// The settings in force.
pub struct Config {
    /// Server port.
    pub port: u16,
    /// API key; empty where none is set.
    pub api_key: String,
    /// Whether verbose output is on.
    pub verbose: bool,
    /// Path of the configuration file, if one was given.
    pub configuration: Option<String>,
}

/// The port that an integer stands for: its low sixteen bits.
pub open spec fn port_of(n: i64) -> u16 {
    (n as int % 65536) as u16
}

/// The port that an integer stands for.
fn to_port(n: i64) -> (r: u16)
    ensures
        r == port_of(n),
{
    let low: i64 = n & 0xffff;
    assert(0 <= low < 65536 && low as int == n as int % 65536) by (bit_vector)
        requires
            low == n & 0xffff,
    ;
    low as u16
}

impl Config {
    /// Resolves the settings: a value given on the command line wins, then a
    /// variable of the environment, then the default. The defaults are port
    /// 3000, an empty API key and verbose output off.
    pub fn from_args(args: Args, env: &Environment) -> (r: Config)
        ensures
            r.port == (match args.port {
                Some(p) => p,
                None => port_of(int_value(resolved(env@, "PORT"@, Seq::empty()), 3000)),
            }),
            r.api_key@ == (match args.api_key {
                Some(k) => k@,
                None => resolved(env@, "API_KEY"@, Seq::empty()),
            }),
            r.verbose == (args.verbose || bool_value(
                resolved(env@, "VERBOSE"@, Seq::empty()),
                false,
            )),
            r.configuration == args.configuration,
    {
        proof {
            reveal_strlit("");
            assert(""@ == Seq::<char>::empty());
        }
        let port = match args.port {
            Some(p) => p,
            None => to_port(getenv_int(env, "PORT", 3000)),
        };
        let api_key = match args.api_key {
            Some(k) => k,
            None => getenv(env, "API_KEY", ""),
        };
        let verbose = args.verbose || getenv_bool(env, "VERBOSE", false);
        Config { port, api_key, verbose, configuration: args.configuration }
    }
}

} // verus!
