//! The rules of a penalty shootout. Each team takes up to five kicks in
//! turn; the shootout stops early once one team is too far behind, and if
//! the teams are level after that, they kick in pairs until one pair
//! leaves them apart. The caller decides whether each kick scores.
use vstd::prelude::*;

verus! {

/// A shootout as values: the kick numbers at which each team scored (the
/// team that kicks first, then the other), the round, whose turn it is,
/// whether sudden death has begun, and whether the shootout is over.
pub struct ShootoutState {
    pub first: Seq<u32>,
    pub second: Seq<u32>,
    pub round: nat,
    pub second_turn: bool,
    pub sudden: bool,
    pub over: bool,
}

/// A shootout under way.
pub struct Shootout {
    first: Vec<u32>,
    second: Vec<u32>,
    round: u32,
    second_turn: bool,
    sudden: bool,
    over: bool,
}

/// The shootout before the first kick.
pub open spec fn start() -> ShootoutState {
    ShootoutState { first: seq![], second: seq![], round: 0, second_turn: false, sudden: false, over: false }
}

/// In the first five rounds, the team whose turn it is kicks unless it is
/// already further behind than the rounds left (counted as `5 - round`).
pub open spec fn regular_kick(s: ShootoutState) -> bool {
    &&& s.round < 5
    &&& if !s.second_turn {
        s.second.len() - s.first.len() <= 5 - s.round
    } else {
        s.first.len() - s.second.len() <= 5 - s.round
    }
}

/// Where the first five rounds allow no more kick: sudden death from round
/// 6 when the teams are level, otherwise the end.
pub open spec fn settled(s: ShootoutState) -> ShootoutState {
    if !s.sudden && !s.over && !regular_kick(s) {
        if s.first.len() == s.second.len() {
            ShootoutState { first: s.first, second: s.second, round: 6, second_turn: false, sudden: true, over: false }
        } else {
            ShootoutState {
                first: s.first,
                second: s.second,
                round: s.round,
                second_turn: s.second_turn,
                sudden: s.sudden,
                over: true,
            }
        }
    } else {
        s
    }
}

/// The number the next kick is recorded with: the round from 1 in the
/// first five rounds, the round itself in sudden death (6, 7, ...).
pub open spec fn kick_number(s: ShootoutState) -> nat {
    if s.sudden {
        s.round
    } else {
        s.round + 1
    }
}

/// The next kick: whether the team that kicks first takes it, and its
/// number; none once the shootout is over.
pub open spec fn next_kick_of(s: ShootoutState) -> Option<(bool, nat)> {
    if s.over {
        None
    } else {
        Some((!s.second_turn, kick_number(s)))
    }
}

/// The shootout after the next kick, which scored or not.
pub open spec fn after_kick(s: ShootoutState, scored: bool) -> ShootoutState {
    let n = kick_number(s) as u32;
    let first = if scored && !s.second_turn { s.first.push(n) } else { s.first };
    let second = if scored && s.second_turn { s.second.push(n) } else { s.second };
    if !s.sudden {
        if !s.second_turn {
            settled(ShootoutState { first, second, round: s.round, second_turn: true, sudden: false, over: false })
        } else {
            settled(ShootoutState { first, second, round: s.round + 1, second_turn: false, sudden: false, over: false })
        }
    } else if !s.second_turn {
        ShootoutState { first, second, round: s.round, second_turn: true, sudden: true, over: false }
    } else if first.len() == second.len() {
        ShootoutState { first, second, round: s.round + 1, second_turn: false, sudden: true, over: false }
    } else {
        ShootoutState { first, second, round: s.round, second_turn: true, sudden: true, over: true }
    }
}

/// A shootout is over only with a winner.
pub open spec fn decided_if_over(s: ShootoutState) -> bool {
    s.over ==> s.first.len() != s.second.len()
}

/// A shootout in a state its rules can reach: over only with a winner,
/// and within the first five rounds until sudden death.
pub open spec fn shootout_wf(s: ShootoutState) -> bool {
    &&& decided_if_over(s)
    &&& !s.sudden ==> s.round <= 5
    &&& !s.sudden && !s.over ==> s.round < 5
}

/// A shootout never ends level: every kick keeps the shootout in a state
/// its rules can reach, so when it is over one team has scored more.
pub proof fn lemma_ends_with_winner(s: ShootoutState, scored: bool)
    requires
        shootout_wf(s),
        !s.over,
    ensures
        shootout_wf(after_kick(s, scored)),
        after_kick(s, scored).over ==> after_kick(s, scored).first.len() != after_kick(s, scored).second.len(),
{
}

impl Shootout {
    /// The shootout as values.
    pub closed spec fn state(&self) -> ShootoutState {
        ShootoutState {
            first: self.first@,
            second: self.second@,
            round: self.round as nat,
            second_turn: self.second_turn,
            sudden: self.sudden,
            over: self.over,
        }
    }

    /// The shootout is in a state its rules can reach.
    pub open spec fn wf(&self) -> bool {
        shootout_wf(self.state())
    }

    /// A shootout before its first kick.
    pub fn new() -> (res: Shootout)
        ensures
            res.wf(),
            res.state() == start(),
    {
        let res = Shootout { first: Vec::new(), second: Vec::new(), round: 0, second_turn: false, sudden: false, over: false };
        proof {
            assert(res.first@ =~= Seq::<u32>::empty());
            assert(res.second@ =~= Seq::<u32>::empty());
        }
        res
    }

    /// The next kick: whether the team that kicks first takes it, and the
    /// kick's number; `None` once the shootout is over.
    pub fn next_kick(&self) -> (res: Option<(bool, u32)>)
        requires
            self.wf(),
        ensures
            match res {
                None => next_kick_of(self.state()) is None,
                Some(k) => next_kick_of(self.state()) == Some((k.0, k.1 as nat)),
            },
    {
        if self.over {
            None
        } else if self.sudden {
            Some((!self.second_turn, self.round))
        } else {
            Some((!self.second_turn, self.round + 1))
        }
    }

    fn regular_kick_exec(&self) -> (res: bool)
        ensures
            res == regular_kick(self.state()),
    {
        if self.round >= 5 {
            return false;
        }
        let a = self.first.len() as i128;
        let b = self.second.len() as i128;
        let left = 5 - self.round as i128;
        if !self.second_turn {
            b - a <= left
        } else {
            a - b <= left
        }
    }

    /// Records the next kick, which scored or not.
    pub fn record(&mut self, scored: bool)
        requires
            old(self).wf(),
            !old(self).state().over,
            old(self).state().round + 2 < u32::MAX,
        ensures
            final(self).wf(),
            final(self).state() == after_kick(old(self).state(), scored),
    {
        proof {
            lemma_ends_with_winner(self.state(), scored);
        }
        let ghost s0 = self.state();
        let n: u32 = if self.sudden { self.round } else { self.round + 1 };
        if scored {
            if !self.second_turn {
                self.first.push(n);
            } else {
                self.second.push(n);
            }
        }
        if !self.sudden {
            if !self.second_turn {
                self.second_turn = true;
            } else {
                self.second_turn = false;
                self.round = self.round + 1;
            }
            if !self.regular_kick_exec() {
                if self.first.len() == self.second.len() {
                    self.round = 6;
                    self.sudden = true;
                    self.second_turn = false;
                } else {
                    self.over = true;
                }
            }
        } else if !self.second_turn {
            self.second_turn = true;
        } else if self.first.len() == self.second.len() {
            self.second_turn = false;
            self.round = self.round + 1;
        } else {
            self.over = true;
        }
        proof {
            assert(self.state() =~~= after_kick(s0, scored));
        }
    }

    /// The goals of the finished shootout by team: the kick numbers at which
    /// the first team of the pairing scored, then the second, where
    /// `first_is_team1` tells whether the first team of the pairing kicked
    /// first. The two teams never scored equally often.
    pub fn goals(&self, first_is_team1: bool) -> (res: (Vec<u32>, Vec<u32>))
        requires
            self.wf(),
            self.state().over,
        ensures
            first_is_team1 ==> res.0@ == self.state().first && res.1@ == self.state().second,
            !first_is_team1 ==> res.0@ == self.state().second && res.1@ == self.state().first,
            res.0@.len() != res.1@.len(),
    {
        let a = self.first.clone();
        let b = self.second.clone();
        proof {
            assert(a@ =~= self.first@);
            assert(b@ =~= self.second@);
        }
        if first_is_team1 {
            (a, b)
        } else {
            (b, a)
        }
    }
}


/// The first team kicks first: the first kick is its kick number 1.
pub proof fn lemma_first_kick()
    ensures
        next_kick_of(start()) == Some((true, 1nat)),
{
}

/// In the first five rounds, after the first team's kick in round `r`
/// (from 0), the second team kicks in the same round exactly when it is
/// behind by at most `5 - r`, the kicks it has left in the five rounds;
/// otherwise the shootout is over.
pub proof fn lemma_second_kicks_while_in_reach(s: ShootoutState, scored: bool)
    requires
        shootout_wf(s),
        !s.over,
        !s.sudden,
        !s.second_turn,
    ensures
        ({
            let t = after_kick(s, scored);
            if t.first.len() - t.second.len() <= 5 - s.round {
                next_kick_of(t) == Some((false, s.round + 1))
            } else {
                next_kick_of(t) is None && t.first.len() > t.second.len()
            }
        }),
{
}

/// In the first five rounds, after the second team's kick in round `r`
/// (from 0), the first team takes its kick of the next round exactly when
/// that round is one of the five and it is behind by at most the kicks it
/// has left (`4 - r`); after the fifth round, level teams go to sudden
/// death, and otherwise the shootout is over.
pub proof fn lemma_first_kicks_while_in_reach(s: ShootoutState, scored: bool)
    requires
        shootout_wf(s),
        !s.over,
        !s.sudden,
        s.second_turn,
    ensures
        ({
            let t = after_kick(s, scored);
            if s.round + 1 < 5 && t.second.len() - t.first.len() <= 4 - s.round {
                next_kick_of(t) == Some((true, s.round + 2))
            } else if t.first.len() == t.second.len() {
                s.round + 1 == 5 && next_kick_of(t) == Some((true, 6nat))
            } else {
                next_kick_of(t) is None
            }
        }),
{
}

/// In sudden death both teams kick in each round; after the second kick of
/// a round the shootout goes on to the next round exactly when the teams
/// are level, and is over otherwise.
pub proof fn lemma_sudden_death(s: ShootoutState, scored: bool)
    requires
        shootout_wf(s),
        !s.over,
        s.sudden,
    ensures
        !s.second_turn ==> next_kick_of(after_kick(s, scored)) == Some((false, s.round)),
        s.second_turn ==> ({
            let t = after_kick(s, scored);
            if t.first.len() == t.second.len() {
                next_kick_of(t) == Some((true, s.round + 1))
            } else {
                next_kick_of(t) is None
            }
        }),
{
}

/// A kick that scores is recorded for the team that took it, with its
/// number, and the other team's goals stay as they were; a miss changes
/// neither.
pub proof fn lemma_kick_recorded(s: ShootoutState, scored: bool)
    requires
        shootout_wf(s),
        !s.over,
    ensures
        ({
            let t = after_kick(s, scored);
            let (by_first, n) = next_kick_of(s)->Some_0;
            &&& by_first ==> t.second == s.second && t.first == if scored { s.first.push(n as u32) } else { s.first }
            &&& !by_first ==> t.first == s.first && t.second == if scored { s.second.push(n as u32) } else { s.second }
        }),
{
}

} // verus!
