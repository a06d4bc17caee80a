//! Types shared across the library.
use vstd::prelude::*;

verus! {

/// Outcome of a pairing or a match.
#[derive(PartialEq, Eq, Structural, Clone, Copy, Debug)]
pub enum MatchWinner {
    WinTeam1,
    WinTeam2,
    Draw,
}

} // verus!
