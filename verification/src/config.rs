//! Settings taken from the command line.
use crate::cli::Cli;
use vstd::prelude::*;

verus! {

/// How much is logged.
#[derive(Debug, Clone, Copy, PartialEq, Eq, Structural)]
pub enum Level {
    INFO,
    DEBUG,
    TRACE,
}

/// The settings.
#[derive(Debug, Clone, Copy, PartialEq, Eq, Structural)]
pub struct Config {
    pub log_level: Level,
}

/// How much is logged when the verbose flag is given so often.
pub open spec fn level_for(verbose: u8) -> Level {
    if verbose == 0 {
        Level::INFO
    } else if verbose == 1 {
        Level::DEBUG
    } else {
        Level::TRACE
    }
}

impl Config {
    pub fn from_cli(cli: &Cli) -> (r: Self)
        ensures
            r.log_level == level_for(cli.verbose),
    {
        let log_level: Level = match cli.verbose {
            0 => Level::INFO,
            1 => Level::DEBUG,
            _ => Level::TRACE,
        };
        Config { log_level }
    }
}

/// Without the flag the least is logged, with it once more, and with it more
/// often the most.
pub proof fn more_flags_log_more(verbose: u8)
    ensures
        level_for(verbose) == Level::INFO <==> verbose == 0,
        level_for(verbose) == Level::DEBUG <==> verbose == 1,
        level_for(verbose) == Level::TRACE <==> verbose >= 2,
{
}

/// Every further flag logs no less, and the flags are all that counts.
pub proof fn flags_set_the_level(cli: &Cli, r: Config)
    requires
        call_ensures(Config::from_cli, (cli,), r),
    ensures
        r.log_level == Level::INFO <==> cli.verbose == 0,
        r.log_level == Level::DEBUG <==> cli.verbose == 1,
        r.log_level == Level::TRACE <==> cli.verbose >= 2,
{
    more_flags_log_more(cli.verbose);
}

} // verus!
