//! Server configuration and the decisions behind the command line.
//!
//! Binding, accepting and spawning live outside this crate; what is
//! decided here is which configuration a given set of flags denotes.

use vstd::prelude::*;

verus! {

/// Port a RESP server listens on when none is given.
pub const DEFAULT_PORT: u16 = 6379;

/// Process configuration: the address to bind and the port to accept
/// connections on.
#[derive(Debug)]
pub struct Config {
    pub bind: String,
    pub port: u16,
}

impl Default for Config {
    /// The stock configuration: loopback on the conventional port.
    fn default() -> (c: Config)
        ensures
            c.bind@ == "127.0.0.1"@,
            c.port == DEFAULT_PORT,
    {
        Config { bind: "127.0.0.1".to_owned(), port: DEFAULT_PORT }
    }
}

/// What the process should do for the flags it was given.
#[derive(Debug)]
pub enum CliAction {
    /// `-h` / `--help`: print usage and exit successfully.
    ShowHelp,
    /// `--version`: print the version and exit successfully.
    ShowVersion,
    /// Run the server with this configuration.
    Run(Config),
}

/// Decide what the command line asks for. Help wins over version; absent
/// flags fall back to the defaults.
pub fn parse_args(help: bool, version: bool, bind: Option<String>, port: Option<u16>) -> (r:
    CliAction)
    ensures
        help ==> r is ShowHelp,
        !help && version ==> r is ShowVersion,
        !help && !version ==> {
            &&& r is Run
            &&& r->0.port == (match port {
                Option::Some(p) => p,
                Option::None => DEFAULT_PORT,
            })
            &&& (match bind {
                Option::Some(b) => r->0.bind == b,
                Option::None => r->0.bind@ == "127.0.0.1"@,
            })
        },
{
    if help {
        CliAction::ShowHelp
    } else if version {
        CliAction::ShowVersion
    } else {
        let cfg = match bind {
            Some(b) => {
                let p = match port {
                    Some(p) => p,
                    None => DEFAULT_PORT,
                };
                Config { bind: b, port: p }
            },
            None => {
                let mut cfg = Config::default();
                match port {
                    Some(p) => {
                        cfg.port = p;
                    },
                    None => {},
                }
                cfg
            },
        };
        CliAction::Run(cfg)
    }
}

} // verus!
