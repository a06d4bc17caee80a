//! Simulation of football (soccer) matches and tournaments: the verified core.
//!
//! The library holds the tournament logic: the flag expression language that
//! routes teams between rounds, the configuration checks, round robin
//! schedules, match results, league tables and the decisions that settle a
//! pairing. Random match simulation and Elo arithmetic, which work on floating
//! point numbers, stay with the caller, who answers the requests of
//! [`tournament::Tournament`].

pub mod text;
pub mod common;
pub mod sim;
pub mod flagcheck;
pub mod reprint;
pub mod cmdline;
pub mod config;
pub mod assemble;
pub mod result;
pub mod balance;
pub mod report;
pub mod tally;
pub mod tournament;
pub mod shootout;
pub mod ranking;
pub mod gen_pairing;
pub mod circle;
pub mod rounds_graph;
