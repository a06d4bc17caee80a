//! What the command line asks for.
use vstd::prelude::*;

verus! {

/// The mode the program runs in, with its arguments.
pub enum CmdlineConfig {
    /// Monte Carlo simulation of a competition.
    Sim { config_file: String, iter: u32, num_threads: u32, match_rounds: Vec<String> },
    /// One run of a competition from a configuration file.
    File { config_file: String, ignore_seed: bool },
    /// A single match between two Elo ratings.
    Match { elo: (u32, u32), extra: bool, penalties: bool, iter: u32 },
    /// No valid subcommand.
    NoCommand,
}

} // verus!
