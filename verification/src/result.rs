//! Results of rounds: pairings, league tables and flags.
use vstd::prelude::*;
use std::collections::HashMap;
use crate::common::MatchWinner;
use crate::config::{Mode, SetFlag, Cond, RankBy, Entrant, EntrantType, Format, copy_set_flag};
use crate::gen_pairing::{generate_round_robin, schedule, reorder_rounds, is_order_of, places, games_per_round, games_view, sizes_fit};
use crate::flagcheck::{eval, strings_view};
use crate::ranking::{stable_sort, sorted_from, all_bounded_for};
use crate::sim::{MatchResult, add_counts};

verus! {

broadcast use vstd::std_specs::hash::group_hash_axioms;

/// A team's line in the table of a round.
pub struct RoundStats {
    /// Index of the team in the configuration.
    pub team: usize,
    pub set_flag: Option<SetFlag>,
    pub points: u32,
    pub goals_for: u32,
    pub goals_against: u32,
    /// Points against each opponent (by team index).
    pub vs_points: HashMap<usize, u32>,
    /// Goals scored against each opponent.
    pub vs_goals_for: HashMap<usize, u32>,
    /// Goals conceded to each opponent.
    pub vs_goals_against: HashMap<usize, u32>,
}

/// The value that a head-to-head map holds for `k`, zero when it holds none.
pub open spec fn vs_get(m: Map<usize, u32>, k: usize) -> nat {
    if m.contains_key(k) {
        m[k] as nat
    } else {
        0
    }
}

/// The numbers of a table line fit in `i32`, so that differences can be taken.
pub open spec fn line_bounded(s: RoundStats) -> bool {
    &&& s.goals_for <= i32::MAX
    &&& s.goals_against <= i32::MAX
    &&& forall|k: usize| vs_get(s.vs_goals_for@, k) <= i32::MAX
    &&& forall|k: usize| vs_get(s.vs_goals_against@, k) <= i32::MAX
}

/// Goal difference of a table line.
pub open spec fn goal_diff_of(s: RoundStats) -> int {
    s.goals_for - s.goals_against
}

/// Head-to-head goal difference of a table line against opponent `k`.
pub open spec fn vs_goal_diff_of(s: RoundStats, k: usize) -> int {
    vs_get(s.vs_goals_for@, k) - vs_get(s.vs_goals_against@, k)
}

/// The value a head-to-head map holds for `k`, zero when it holds none.
pub fn map_get_or_zero(m: &HashMap<usize, u32>, k: usize) -> (res: u32)
    ensures
        res == vs_get(m@, k),
{
    match m.get(&k) {
        Some(v) => *v,
        None => 0,
    }
}

impl RoundStats {
    /// Goals scored minus goals conceded.
    pub fn goal_diff(&self) -> (res: i32)
        requires
            self.goals_for <= i32::MAX,
            self.goals_against <= i32::MAX,
        ensures
            res == goal_diff_of(*self),
    {
        self.goals_for as i32 - self.goals_against as i32
    }

    /// Goals scored minus goals conceded against the team with index `id`.
    pub fn vs_goal_diff(&self, id: usize) -> (res: i32)
        requires
            vs_get(self.vs_goals_for@, id) <= i32::MAX,
            vs_get(self.vs_goals_against@, id) <= i32::MAX,
        ensures
            res == vs_goal_diff_of(*self, id),
    {
        map_get_or_zero(&self.vs_goals_for, id) as i32 - map_get_or_zero(&self.vs_goals_against, id) as i32
    }
}

/// Where a match is played.
#[derive(PartialEq, Eq, Structural, Clone, Copy, Debug)]
pub enum MatchLocation {
    /// At the home of the first team.
    Home1,
    /// At the home of the second team.
    Home2,
    Neutral,
}

/// A match of a pairing, with its result once it is played.
pub struct Match {
    pub location: MatchLocation,
    pub result: Option<MatchResult>,
}

/// Two teams that meet in a round, the matches they play and who won.
pub struct PairingResult {
    /// Indices of the two teams in the configuration.
    pub teams: (usize, usize),
    pub match_results: Vec<Match>,
    pub winner: Option<MatchWinner>,
    /// A draw is not an outcome: the pairing is settled by the criteria of
    /// the format, and by lot as a last resort.
    pub needs_winner: bool,
}

/// Goals of a match, zero before it is played.
pub open spec fn match_goals(m: Match) -> (nat, nat) {
    match m.result {
        Some(r) => r.spec_total(),
        None => (0, 0),
    }
}

/// Goals that each team scored away from home in a match.
pub open spec fn match_away_goals(m: Match) -> (nat, nat) {
    match m.result {
        Some(r) => match m.location {
            MatchLocation::Home1 => (0, r.spec_total().1),
            MatchLocation::Home2 => (r.spec_total().0, 0),
            MatchLocation::Neutral => (0, 0),
        },
        None => (0, 0),
    }
}

/// Total goals of a sequence of matches.
pub open spec fn goals_sum(ms: Seq<Match>) -> (nat, nat)
    decreases ms.len(),
{
    if ms.len() == 0 {
        (0, 0)
    } else {
        add_counts(goals_sum(ms.drop_last()), match_goals(ms.last()))
    }
}

/// Total away goals of a sequence of matches.
pub open spec fn away_sum(ms: Seq<Match>) -> (nat, nat)
    decreases ms.len(),
{
    if ms.len() == 0 {
        (0, 0)
    } else {
        add_counts(away_sum(ms.drop_last()), match_away_goals(ms.last()))
    }
}

/// The outcome that a score gives.
pub open spec fn winner_of(g: (nat, nat)) -> MatchWinner {
    if g.0 > g.1 {
        MatchWinner::WinTeam1
    } else if g.1 > g.0 {
        MatchWinner::WinTeam2
    } else {
        MatchWinner::Draw
    }
}

/// The outcome that a score gives.
pub fn get_winner(g: (u32, u32)) -> (res: MatchWinner)
    ensures
        res == winner_of((g.0 as nat, g.1 as nat)),
{
    if g.0 > g.1 {
        MatchWinner::WinTeam1
    } else if g.1 > g.0 {
        MatchWinner::WinTeam2
    } else {
        MatchWinner::Draw
    }
}

proof fn lemma_sum_prefix(ms: Seq<Match>, j: int)
    requires
        0 <= j < ms.len(),
    ensures
        goals_sum(ms.take(j + 1)) == add_counts(goals_sum(ms.take(j)), match_goals(ms[j])),
        away_sum(ms.take(j + 1)) == add_counts(away_sum(ms.take(j)), match_away_goals(ms[j])),
{
    assert(ms.take(j + 1).drop_last() =~= ms.take(j));
}

proof fn lemma_sum_prefix_le(ms: Seq<Match>, j: int)
    requires
        0 <= j <= ms.len(),
    ensures
        goals_sum(ms.take(j)).0 <= goals_sum(ms).0,
        goals_sum(ms.take(j)).1 <= goals_sum(ms).1,
        away_sum(ms.take(j)).0 <= away_sum(ms).0,
        away_sum(ms.take(j)).1 <= away_sum(ms).1,
    decreases ms.len() - j,
{
    if j < ms.len() {
        lemma_sum_prefix(ms, j);
        lemma_sum_prefix_le(ms, j + 1);
    } else {
        assert(ms.take(j) =~= ms);
    }
}

/// Away goals never exceed all goals.
proof fn lemma_away_le_total(ms: Seq<Match>)
    ensures
        away_sum(ms).0 <= goals_sum(ms).0,
        away_sum(ms).1 <= goals_sum(ms).1,
    decreases ms.len(),
{
    if ms.len() > 0 {
        lemma_away_le_total(ms.drop_last());
    }
}

impl PairingResult {
    /// Goals of both teams over all played matches.
    pub open spec fn spec_total_goals(&self) -> (nat, nat) {
        goals_sum(self.match_results@)
    }

    /// Away goals of both teams over all played matches.
    pub open spec fn spec_away_goals(&self) -> (nat, nat) {
        away_sum(self.match_results@)
    }

    /// The result of the last match.
    pub open spec fn spec_last_result(&self) -> MatchResult {
        self.match_results@.last().result->Some_0
    }

    /// Goals of both teams over all played matches.
    pub fn total_goals(&self) -> (res: (u32, u32))
        requires
            fits_u32_pair(self.spec_total_goals()),
        ensures
            res.0 == self.spec_total_goals().0,
            res.1 == self.spec_total_goals().1,
    {
        let mut goals: (u32, u32) = (0, 0);
        let ghost ms = self.match_results@;
        let mut j: usize = 0;
        while j < self.match_results.len()
            invariant
                ms == self.match_results@,
                j <= ms.len(),
                goals.0 == goals_sum(ms.take(j as int)).0,
                goals.1 == goals_sum(ms.take(j as int)).1,
                fits_u32_pair(goals_sum(ms)),
            decreases ms.len() - j,
        {
            proof {
                lemma_sum_prefix(ms, j as int);
                lemma_sum_prefix_le(ms, j as int + 1);
            }
            if let Some(ref r) = self.match_results[j].result {
                let t = r.total();
                goals.0 = goals.0 + t.0;
                goals.1 = goals.1 + t.1;
            }
            j = j + 1;
        }
        proof {
            assert(ms.take(ms.len() as int) =~= ms);
        }
        goals
    }

    /// Goals of both teams in matches away from home.
    pub fn away_goals(&self) -> (res: (u32, u32))
        requires
            fits_u32_pair(self.spec_total_goals()),
        ensures
            res.0 == self.spec_away_goals().0,
            res.1 == self.spec_away_goals().1,
    {
        let mut goals: (u32, u32) = (0, 0);
        let ghost ms = self.match_results@;
        proof {
            lemma_away_le_total(ms);
        }
        let mut j: usize = 0;
        while j < self.match_results.len()
            invariant
                ms == self.match_results@,
                j <= ms.len(),
                goals.0 == away_sum(ms.take(j as int)).0,
                goals.1 == away_sum(ms.take(j as int)).1,
                fits_u32_pair(away_sum(ms)),
            decreases ms.len() - j,
        {
            proof {
                lemma_sum_prefix(ms, j as int);
                lemma_sum_prefix_le(ms, j as int + 1);
            }
            if let Some(ref r) = self.match_results[j].result {
                let t = r.total();
                match self.match_results[j].location {
                    MatchLocation::Home1 => {
                        goals.1 = goals.1 + t.1;
                    },
                    MatchLocation::Home2 => {
                        goals.0 = goals.0 + t.0;
                    },
                    MatchLocation::Neutral => {},
                }
            }
            j = j + 1;
        }
        proof {
            assert(ms.take(ms.len() as int) =~= ms);
        }
        goals
    }

    /// The result of the last match.
    pub fn last_match_result(&self) -> (res: &MatchResult)
        requires
            self.match_results@.len() > 0,
            self.match_results@.last().result is Some,
        ensures
            *res == self.spec_last_result(),
    {
        let n = self.match_results.len();
        self.match_results[n - 1].result.as_ref().unwrap()
    }
}


/// Total goals of the matches, if both counts fit in `u32`.
pub fn checked_total_goals(ms: &Vec<Match>) -> (res: Option<(u32, u32)>)
    ensures
        res is Some <==> fits_u32_pair(goals_sum(ms@)),
        res matches Some(g) ==> g.0 == goals_sum(ms@).0 && g.1 == goals_sum(ms@).1,
{
    let mut goals: (u64, u64) = (0, 0);
    let mut j: usize = 0;
    while j < ms.len()
        invariant
            j <= ms@.len(),
            goals.0 == goals_sum(ms@.take(j as int)).0,
            goals.1 == goals_sum(ms@.take(j as int)).1,
            goals.0 <= u32::MAX,
            goals.1 <= u32::MAX,
        decreases ms@.len() - j,
    {
        proof {
            lemma_sum_prefix(ms@, j as int);
            lemma_sum_prefix_le(ms@, j as int + 1);
        }
        if let Some(ref r) = ms[j].result {
            let t = r.total();
            goals.0 = goals.0 + t.0 as u64;
            goals.1 = goals.1 + t.1 as u64;
        }
        if goals.0 > u32::MAX as u64 || goals.1 > u32::MAX as u64 {
            return None;
        }
        j = j + 1;
    }
    proof {
        assert(ms@.take(ms@.len() as int) =~= ms@);
    }
    Some((goals.0 as u32, goals.1 as u32))
}

/// The results of a round: its pairings, its table and the flags it set.
pub struct RoundResult {
    pub id: String,
    pub name: String,
    pub mode: Mode,
    pub pairings: Vec<PairingResult>,
    pub stats: Vec<RoundStats>,
    /// Each flag with the team (by index) that holds it.
    pub flags: Vec<(String, usize)>,
}

/// Points that side `side` (0 or 1) of a pairing gets, if it gets any.
pub open spec fn points_won(p: PairingResult, side: nat, pfw: nat, pfd: nat) -> Option<nat> {
    points_for(p.winner, side, pfw, pfd)
}

/// Points that side `side` (0 or 1) gets for the outcome `w`, if it gets any.
pub open spec fn points_for(w: Option<MatchWinner>, side: nat, pfw: nat, pfd: nat) -> Option<nat> {
    match w {
        Some(MatchWinner::WinTeam1) => if side == 0 { Some(pfw) } else { None },
        Some(MatchWinner::WinTeam2) => if side == 1 { Some(pfw) } else { None },
        Some(MatchWinner::Draw) => Some(pfd),
        None => None,
    }
}

pub open spec fn opt_val(o: Option<nat>) -> nat {
    match o {
        Some(v) => v,
        None => 0,
    }
}

/// Points that team `t` gets from a pairing.
pub open spec fn points_gain(t: usize, p: PairingResult, pfw: nat, pfd: nat) -> nat {
    (if p.teams.0 == t { opt_val(points_won(p, 0, pfw, pfd)) } else { 0 })
        + (if p.teams.1 == t { opt_val(points_won(p, 1, pfw, pfd)) } else { 0 })
}

/// Points that team `t` gets from a pairing against team `k`.
pub open spec fn vs_points_gain(t: usize, k: usize, p: PairingResult, pfw: nat, pfd: nat) -> nat {
    (if p.teams.0 == t && p.teams.1 == k { opt_val(points_won(p, 0, pfw, pfd)) } else { 0 })
        + (if p.teams.1 == t && p.teams.0 == k { opt_val(points_won(p, 1, pfw, pfd)) } else { 0 })
}

/// Goals that team `t` scores in a pairing.
pub open spec fn gf_gain(t: usize, p: PairingResult) -> nat {
    (if p.teams.0 == t { p.spec_total_goals().0 } else { 0 })
        + (if p.teams.1 == t { p.spec_total_goals().1 } else { 0 })
}

/// Goals that team `t` concedes in a pairing.
pub open spec fn ga_gain(t: usize, p: PairingResult) -> nat {
    (if p.teams.0 == t { p.spec_total_goals().1 } else { 0 })
        + (if p.teams.1 == t { p.spec_total_goals().0 } else { 0 })
}

/// Goals that team `t` scores in a pairing against team `k`.
pub open spec fn vs_gf_gain(t: usize, k: usize, p: PairingResult) -> nat {
    (if p.teams.0 == t && p.teams.1 == k { p.spec_total_goals().0 } else { 0 })
        + (if p.teams.1 == t && p.teams.0 == k { p.spec_total_goals().1 } else { 0 })
}

/// Goals that team `t` concedes in a pairing against team `k`.
pub open spec fn vs_ga_gain(t: usize, k: usize, p: PairingResult) -> nat {
    (if p.teams.0 == t && p.teams.1 == k { p.spec_total_goals().1 } else { 0 })
        + (if p.teams.1 == t && p.teams.0 == k { p.spec_total_goals().0 } else { 0 })
}

/// Sum of `f` over the pairings.
pub open spec fn sum_over(ps: Seq<PairingResult>, f: spec_fn(PairingResult) -> nat) -> nat
    decreases ps.len(),
{
    if ps.len() == 0 {
        0
    } else {
        sum_over(ps.drop_last(), f) + f(ps.last())
    }
}

pub(crate) proof fn lemma_sum_over_prefix(ps: Seq<PairingResult>, f: spec_fn(PairingResult) -> nat, j: int)
    requires
        0 <= j < ps.len(),
    ensures
        sum_over(ps.take(j + 1), f) == sum_over(ps.take(j), f) + f(ps[j]),
{
    assert(ps.take(j + 1).drop_last() =~= ps.take(j));
}

pub(crate) proof fn lemma_sum_over_prefix_le(ps: Seq<PairingResult>, f: spec_fn(PairingResult) -> nat, j: int)
    requires
        0 <= j <= ps.len(),
    ensures
        sum_over(ps.take(j), f) <= sum_over(ps, f),
    decreases ps.len() - j,
{
    if j < ps.len() {
        lemma_sum_over_prefix(ps, f, j);
        lemma_sum_over_prefix_le(ps, f, j + 1);
    } else {
        assert(ps.take(j) =~= ps);
    }
}

/// Line `i` is the first line of its team in the table.
pub open spec fn is_first_line(stats: Seq<RoundStats>, i: int) -> bool {
    forall|j: int| 0 <= j < i ==> stats[j].team != stats[i].team
}

/// Team `t` has a line in the table.
pub open spec fn has_line(stats: Seq<RoundStats>, t: usize) -> bool {
    exists|i: int| 0 <= i < stats.len() && stats[i].team == t
}

/// Points of team `t`, per pairing.
pub open spec fn points_f(t: usize, pfw: nat, pfd: nat) -> spec_fn(PairingResult) -> nat {
    |p: PairingResult| points_gain(t, p, pfw, pfd)
}

/// Points of team `t` against team `k`, per pairing.
pub open spec fn vs_points_f(t: usize, k: usize, pfw: nat, pfd: nat) -> spec_fn(PairingResult) -> nat {
    |p: PairingResult| vs_points_gain(t, k, p, pfw, pfd)
}

/// Goals scored by team `t`, per pairing.
pub open spec fn gf_f(t: usize) -> spec_fn(PairingResult) -> nat {
    |p: PairingResult| gf_gain(t, p)
}

/// Goals conceded by team `t`, per pairing.
pub open spec fn ga_f(t: usize) -> spec_fn(PairingResult) -> nat {
    |p: PairingResult| ga_gain(t, p)
}

/// Goals scored by team `t` against team `k`, per pairing.
pub open spec fn vs_gf_f(t: usize, k: usize) -> spec_fn(PairingResult) -> nat {
    |p: PairingResult| vs_gf_gain(t, k, p)
}

/// Goals conceded by team `t` to team `k`, per pairing.
pub open spec fn vs_ga_f(t: usize, k: usize) -> spec_fn(PairingResult) -> nat {
    |p: PairingResult| vs_ga_gain(t, k, p)
}

/// The line `new` is the line `old` after the pairings `ps` were counted for
/// its team.
pub open spec fn line_counted(old: RoundStats, new: RoundStats, ps: Seq<PairingResult>, pfw: nat, pfd: nat) -> bool {
    let t = old.team;
    &&& new.team == old.team
    &&& new.set_flag == old.set_flag
    &&& new.points == old.points + sum_over(ps, points_f(t, pfw, pfd))
    &&& new.goals_for == old.goals_for + sum_over(ps, gf_f(t))
    &&& new.goals_against == old.goals_against + sum_over(ps, ga_f(t))
    &&& forall|k: usize| #[trigger] vs_get(new.vs_points@, k) == vs_get(old.vs_points@, k)
        + sum_over(ps, vs_points_f(t, k, pfw, pfd))
    &&& forall|k: usize| #[trigger] vs_get(new.vs_goals_for@, k) == vs_get(old.vs_goals_for@, k)
        + sum_over(ps, vs_gf_f(t, k))
    &&& forall|k: usize| #[trigger] vs_get(new.vs_goals_against@, k) == vs_get(old.vs_goals_against@, k)
        + sum_over(ps, vs_ga_f(t, k))
}

/// Counting the pairings `ps` for the line `old` keeps every number within `u32`.
pub open spec fn line_fits(old: RoundStats, ps: Seq<PairingResult>, pfw: nat, pfd: nat) -> bool {
    let t = old.team;
    &&& old.points + sum_over(ps, points_f(t, pfw, pfd)) <= u32::MAX
    &&& old.goals_for + sum_over(ps, gf_f(t)) <= u32::MAX
    &&& old.goals_against + sum_over(ps, ga_f(t)) <= u32::MAX
    &&& forall|k: usize| #[trigger] vs_get(old.vs_points@, k) + sum_over(ps, vs_points_f(t, k, pfw, pfd)) <= u32::MAX
    &&& forall|k: usize| #[trigger] vs_get(old.vs_goals_for@, k) + sum_over(ps, vs_gf_f(t, k)) <= u32::MAX
    &&& forall|k: usize| #[trigger] vs_get(old.vs_goals_against@, k) + sum_over(ps, vs_ga_f(t, k)) <= u32::MAX
}

/// Index of the first line of team `team`.
pub fn get_stat_line(stats: &Vec<RoundStats>, team: usize) -> (res: usize)
    requires
        has_line(stats@, team),
    ensures
        res < stats@.len(),
        stats@[res as int].team == team,
        is_first_line(stats@, res as int),
{
    let mut i: usize = 0;
    while i < stats.len()
        invariant
            i <= stats@.len(),
            forall|j: int| 0 <= j < i ==> stats@[j].team != team,
            has_line(stats@, team),
        decreases stats@.len() - i,
    {
        if stats[i].team == team {
            return i;
        }
        i = i + 1;
    }
    assert(false);
    0
}

/// Adds `v` to the value a head-to-head map holds for `k`.
fn map_add(m: &mut HashMap<usize, u32>, k: usize, v: u32)
    requires
        vs_get(old(m)@, k) + v <= u32::MAX,
    ensures
        forall|j: usize| #[trigger] vs_get(final(m)@, j) == vs_get(old(m)@, j) + if j == k { v as nat } else { 0 },
        final(m)@.dom() == old(m)@.dom().insert(k),
{
    let cur = map_get_or_zero(m, k);
    m.insert(k, cur + v);
}

/// Counts one side of a pairing for the table line `i`: the points (when
/// this side gets any) and the goals scored and conceded against `opp`.
fn count_side(stats: &mut Vec<RoundStats>, i: usize, opp: usize, pts: Option<u32>, gf: u32, ga: u32)
    requires
        i < old(stats)@.len(),
        old(stats)@[i as int].points + opt_val(opt_nat(pts)) <= u32::MAX,
        old(stats)@[i as int].goals_for + gf <= u32::MAX,
        old(stats)@[i as int].goals_against + ga <= u32::MAX,
        vs_get(old(stats)@[i as int].vs_points@, opp) + opt_val(opt_nat(pts)) <= u32::MAX,
        vs_get(old(stats)@[i as int].vs_goals_for@, opp) + gf <= u32::MAX,
        vs_get(old(stats)@[i as int].vs_goals_against@, opp) + ga <= u32::MAX,
    ensures
        final(stats)@.len() == old(stats)@.len(),
        forall|j: int| 0 <= j < old(stats)@.len() && j != i ==> final(stats)@[j] == old(stats)@[j],
        side_counted(old(stats)@[i as int], final(stats)@[i as int], opp, pts, gf, ga),
{
    let mut line = stats.remove(i);
    if let Some(p) = pts {
        line.points = line.points + p;
        map_add(&mut line.vs_points, opp, p);
    }
    line.goals_for = line.goals_for + gf;
    line.goals_against = line.goals_against + ga;
    map_add(&mut line.vs_goals_for, opp, gf);
    map_add(&mut line.vs_goals_against, opp, ga);
    stats.insert(i, line);
}

/// The line `n` is the line `o` after one side of a pairing against `opp`
/// was counted: `pts` points (when the side gets any), `gf` goals scored and
/// `ga` conceded.
pub open spec fn side_counted(o: RoundStats, n: RoundStats, opp: usize, pts: Option<u32>, gf: u32, ga: u32) -> bool {
    &&& n.team == o.team
    &&& n.set_flag == o.set_flag
    &&& n.points == o.points + opt_val(opt_nat(pts))
    &&& n.goals_for == o.goals_for + gf
    &&& n.goals_against == o.goals_against + ga
    &&& forall|k: usize| #[trigger] vs_get(n.vs_points@, k) == vs_get(o.vs_points@, k) + if k == opp { opt_val(opt_nat(pts)) } else { 0 }
    &&& forall|k: usize| #[trigger] vs_get(n.vs_goals_for@, k) == vs_get(o.vs_goals_for@, k) + if k == opp { gf as nat } else { 0 }
    &&& forall|k: usize| #[trigger] vs_get(n.vs_goals_against@, k) == vs_get(o.vs_goals_against@, k) + if k == opp { ga as nat } else { 0 }
    &&& n.vs_points@.dom() == if pts is Some { o.vs_points@.dom().insert(opp) } else { o.vs_points@.dom() }
    &&& n.vs_goals_for@.dom() == o.vs_goals_for@.dom().insert(opp)
    &&& n.vs_goals_against@.dom() == o.vs_goals_against@.dom().insert(opp)
}

pub open spec fn opt_nat(o: Option<u32>) -> Option<nat> {
    match o {
        Some(v) => Some(v as nat),
        None => None,
    }
}

/// Points awarded to each side of a pairing with this outcome.
fn side_points(w: MatchWinner, pfw: u32, pfd: u32) -> (res: (Option<u32>, Option<u32>))
    ensures
        opt_nat(res.0) == points_for(Some(w), 0, pfw as nat, pfd as nat),
        opt_nat(res.1) == points_for(Some(w), 1, pfw as nat, pfd as nat),
{
    match w {
        MatchWinner::WinTeam1 => (Some(pfw), None),
        MatchWinner::WinTeam2 => (None, Some(pfw)),
        MatchWinner::Draw => (Some(pfd), Some(pfd)),
    }
}

/// Side `side` (0 or 1) of a pairing takes points: it won, or the pairing
/// was drawn.
pub open spec fn takes_points(p: PairingResult, side: nat) -> bool {
    match p.winner {
        Some(MatchWinner::WinTeam1) => side == 0,
        Some(MatchWinner::WinTeam2) => side == 1,
        Some(MatchWinner::Draw) => true,
        None => false,
    }
}

/// The opponents of team `t` in pairing `p`.
pub open spec fn pairing_opponents(p: PairingResult, t: usize) -> Set<usize> {
    (if p.teams.0 == t { set![p.teams.1] } else { Set::empty() }).union(
        if p.teams.1 == t { set![p.teams.0] } else { Set::empty() },
    )
}

/// The opponents of team `t` in pairing `p` against which `t` won or drew.
pub open spec fn pairing_point_opponents(p: PairingResult, t: usize) -> Set<usize> {
    (if p.teams.0 == t && takes_points(p, 0) { set![p.teams.1] } else { Set::empty() }).union(
        if p.teams.1 == t && takes_points(p, 1) { set![p.teams.0] } else { Set::empty() },
    )
}

/// The opponents of team `t` in the pairings.
pub open spec fn opponents(ps: Seq<PairingResult>, t: usize) -> Set<usize>
    decreases ps.len(),
{
    if ps.len() == 0 {
        Set::empty()
    } else {
        opponents(ps.drop_last(), t).union(pairing_opponents(ps.last(), t))
    }
}

/// The opponents of team `t` in the pairings against which `t` won or drew.
pub open spec fn point_opponents(ps: Seq<PairingResult>, t: usize) -> Set<usize>
    decreases ps.len(),
{
    if ps.len() == 0 {
        Set::empty()
    } else {
        point_opponents(ps.drop_last(), t).union(pairing_point_opponents(ps.last(), t))
    }
}

/// The head-to-head maps of line `new` hold the keys of line `old` and
/// gain one for each opponent of its team in the pairings; the points map
/// gains one only for each opponent against which the team won or drew.
pub open spec fn line_keys(old: RoundStats, new: RoundStats, ps: Seq<PairingResult>) -> bool {
    let t = old.team;
    &&& new.vs_points@.dom() == old.vs_points@.dom().union(point_opponents(ps, t))
    &&& new.vs_goals_for@.dom() == old.vs_goals_for@.dom().union(opponents(ps, t))
    &&& new.vs_goals_against@.dom() == old.vs_goals_against@.dom().union(opponents(ps, t))
}

/// The table `new` is the table `old` after the pairings `ps` were counted:
/// each team's first line takes the counts of its team (and the keys of its
/// head-to-head maps), other lines stay.
pub open spec fn stats_updated(old: Seq<RoundStats>, new: Seq<RoundStats>, ps: Seq<PairingResult>, pfw: nat, pfd: nat) -> bool {
    &&& new.len() == old.len()
    &&& forall|i: int| 0 <= i < old.len() && is_first_line(old, i) ==> line_counted(#[trigger] old[i], new[i], ps, pfw, pfd)
    &&& forall|i: int| 0 <= i < old.len() && is_first_line(old, i) ==> line_keys(#[trigger] old[i], new[i], ps)
    &&& forall|i: int| 0 <= i < old.len() && !is_first_line(old, i) ==> #[trigger] new[i] == old[i]
}

impl RoundResult {
    /// Counts the pairings of the round into its table: points for wins and
    /// draws, goals scored and conceded, overall and per opponent. Each
    /// team's first line in the table takes its counts; other lines of the
    /// same team stay as they were. A head-to-head goals entry is made for
    /// every opponent, a head-to-head points entry only for an opponent that
    /// the team beat or drew with.
    #[verifier::spinoff_prover]
    #[verifier::rlimit(50)]
    pub fn update_stats(&mut self, points_for_win: u32, points_for_draw: u32)
        requires
            forall|j: int| 0 <= j < old(self).pairings@.len() ==> (#[trigger] old(self).pairings@[j]).winner is Some,
            forall|j: int| 0 <= j < old(self).pairings@.len() ==> has_line(old(self).stats@, (#[trigger] old(self).pairings@[j]).teams.0)
                && has_line(old(self).stats@, old(self).pairings@[j].teams.1),
            forall|i: int| 0 <= i < old(self).stats@.len() && is_first_line(old(self).stats@, i)
                ==> line_fits(#[trigger] old(self).stats@[i], old(self).pairings@, points_for_win as nat, points_for_draw as nat),
        ensures
            final(self).id == old(self).id,
            final(self).name == old(self).name,
            final(self).mode == old(self).mode,
            final(self).pairings == old(self).pairings,
            final(self).flags == old(self).flags,
            stats_updated(old(self).stats@, final(self).stats@, old(self).pairings@, points_for_win as nat, points_for_draw as nat),
    {
        let ghost ps = self.pairings@;
        let ghost st0 = self.stats@;
        let ghost pfw = points_for_win as nat;
        let ghost pfd = points_for_draw as nat;
        let ghost id0 = self.id;
        let ghost name0 = self.name;
        let ghost mode0 = self.mode;
        let ghost flags0 = self.flags;
        let ghost pairings0 = self.pairings;
        let mut j: usize = 0;
        proof {
            assert forall|i: int| 0 <= i < st0.len() && is_first_line(st0, i) implies
                line_counted(#[trigger] st0[i], self.stats@[i], ps.take(0), pfw, pfd) by {
                let t = st0[i].team;
                assert(ps.take(0).len() == 0);
            }
            assert forall|i: int| 0 <= i < st0.len() && is_first_line(st0, i) implies
                line_keys(#[trigger] st0[i], self.stats@[i], ps.take(0)) by {
                let t = st0[i].team;
                assert(ps.take(0).len() == 0);
                assert(self.stats@[i].vs_points@.dom() =~= st0[i].vs_points@.dom().union(point_opponents(ps.take(0), t)));
                assert(self.stats@[i].vs_goals_for@.dom() =~= st0[i].vs_goals_for@.dom().union(opponents(ps.take(0), t)));
                assert(self.stats@[i].vs_goals_against@.dom() =~= st0[i].vs_goals_against@.dom().union(opponents(ps.take(0), t)));
            }
        }
        while j < self.pairings.len()
            invariant
                ps == self.pairings@,
                j <= ps.len(),
                self.stats@.len() == st0.len(),
                forall|i: int| 0 <= i < st0.len() ==> #[trigger] self.stats@[i].team == st0[i].team,
                forall|j2: int| 0 <= j2 < ps.len() ==> (#[trigger] ps[j2]).winner is Some,
                forall|j2: int| 0 <= j2 < ps.len() ==> has_line(st0, (#[trigger] ps[j2]).teams.0) && has_line(st0, ps[j2].teams.1),
                forall|i: int| 0 <= i < st0.len() && is_first_line(st0, i) ==> line_fits(#[trigger] st0[i], ps, pfw, pfd),
                forall|i: int| 0 <= i < st0.len() && is_first_line(st0, i)
                    ==> line_counted(#[trigger] st0[i], self.stats@[i], ps.take(j as int), pfw, pfd),
                forall|i: int| 0 <= i < st0.len() && is_first_line(st0, i)
                    ==> line_keys(#[trigger] st0[i], self.stats@[i], ps.take(j as int)),
                forall|i: int| 0 <= i < st0.len() && !is_first_line(st0, i) ==> #[trigger] self.stats@[i] == st0[i],
                pfw == points_for_win,
                pfd == points_for_draw,
                self.id == id0,
                self.name == name0,
                self.mode == mode0,
                self.flags == flags0,
                self.pairings == pairings0,
            decreases ps.len() - j,
        {
            let t0 = self.pairings[j].teams.0;
            let t1 = self.pairings[j].teams.1;
            let w = self.pairings[j].winner.unwrap();
            let ghost p = ps[j as int];
            proof {
                lemma_count_bounds(st0, ps, j as int, pfw, pfd);
            }
            let tg = self.pairings[j].total_goals();
            let (p0, p1) = side_points(w, points_for_win, points_for_draw);
            let ghost st_a = self.stats@;
            proof {
                lemma_has_line_same_teams(st0, st_a, t0);
                lemma_has_line_same_teams(st0, st_a, t1);
            }
            let i0 = get_stat_line(&self.stats, t0);
            proof {
                lemma_first_line_same_teams(st0, st_a, i0 as int);
                lemma_side_fits(st0, st_a, ps, j as int, i0 as int, pfw, pfd, p0, tg, true);
            }
            count_side(&mut self.stats, i0, t1, p0, tg.0, tg.1);
            let ghost st_b = self.stats@;
            proof {
                assert forall|i: int| 0 <= i < st0.len() implies #[trigger] st_b[i].team == st0[i].team by {
                    if i != i0 {
                        assert(st_b[i] == st_a[i]);
                    }
                }
                lemma_has_line_same_teams(st0, st_b, t1);
            }
            let i1 = get_stat_line(&self.stats, t1);
            proof {
                lemma_first_line_same_teams(st0, st_b, i1 as int);
                lemma_side1_fits(st0, st_a, st_b, ps, j as int, i0 as int, i1 as int, pfw, pfd, p0, p1, tg);
            }
            count_side(&mut self.stats, i1, t0, p1, tg.1, tg.0);
            proof {
                lemma_count_step(st0, st_a, st_b, self.stats@, ps, j as int, i0 as int, i1 as int, pfw, pfd, p0, p1, tg);
                lemma_keys_step(st0, st_a, st_b, self.stats@, ps, j as int, i0 as int, i1 as int, pfw, pfd, p0, p1, tg);
            }
            j = j + 1;
        }
        proof {
            assert(ps.take(ps.len() as int) =~= ps);
        }
    }
}

proof fn lemma_has_line_same_teams(a: Seq<RoundStats>, b: Seq<RoundStats>, t: usize)
    requires
        a.len() == b.len(),
        forall|i: int| 0 <= i < a.len() ==> #[trigger] b[i].team == a[i].team,
        has_line(a, t),
    ensures
        has_line(b, t),
{
    let i = choose|i: int| 0 <= i < a.len() && a[i].team == t;
    assert(b[i].team == t);
}

proof fn lemma_first_line_same_teams(a: Seq<RoundStats>, b: Seq<RoundStats>, i: int)
    requires
        a.len() == b.len(),
        0 <= i < a.len(),
        forall|k: int| 0 <= k < a.len() ==> #[trigger] b[k].team == a[k].team,
        is_first_line(b, i),
    ensures
        is_first_line(a, i),
{
    assert forall|j: int| 0 <= j < i implies a[j].team != a[i].team by {
        assert(b[j].team == a[j].team);
    }
}

/// After both sides of pairing `j` were counted, every first line's
/// head-to-head maps hold the keys of the pairings up to `j`.
#[verifier::spinoff_prover]
proof fn lemma_keys_step(
    st0: Seq<RoundStats>,
    st_a: Seq<RoundStats>,
    st_b: Seq<RoundStats>,
    st_c: Seq<RoundStats>,
    ps: Seq<PairingResult>,
    j: int,
    i0: int,
    i1: int,
    pfw: nat,
    pfd: nat,
    p0: Option<u32>,
    p1: Option<u32>,
    tg: (u32, u32),
)
    requires
        0 <= j < ps.len(),
        0 <= i0 < st0.len(),
        0 <= i1 < st0.len(),
        st_a.len() == st0.len(),
        st_b.len() == st0.len(),
        st_c.len() == st0.len(),
        is_first_line(st0, i0),
        is_first_line(st0, i1),
        st0[i0].team == ps[j].teams.0,
        st0[i1].team == ps[j].teams.1,
        forall|i: int| 0 <= i < st0.len() && is_first_line(st0, i)
            ==> line_keys(#[trigger] st0[i], st_a[i], ps.take(j)),
        side_counted(st_a[i0], st_b[i0], ps[j].teams.1, p0, tg.0, tg.1),
        forall|i: int| 0 <= i < st0.len() && i != i0 ==> #[trigger] st_b[i] == st_a[i],
        side_counted(st_b[i1], st_c[i1], ps[j].teams.0, p1, tg.1, tg.0),
        forall|i: int| 0 <= i < st0.len() && i != i1 ==> #[trigger] st_c[i] == st_b[i],
        opt_nat(p0) == points_won(ps[j], 0, pfw, pfd),
        opt_nat(p1) == points_won(ps[j], 1, pfw, pfd),
    ensures
        forall|i: int| 0 <= i < st0.len() && is_first_line(st0, i)
            ==> line_keys(#[trigger] st0[i], st_c[i], ps.take(j + 1)),
{
    let p = ps[j];
    assert(ps.take(j + 1).drop_last() =~= ps.take(j));
    assert(ps.take(j + 1).last() == p);
    assert(p0 is Some <==> takes_points(p, 0));
    assert(p1 is Some <==> takes_points(p, 1));
    assert forall|i: int| 0 <= i < st0.len() && is_first_line(st0, i)
        implies line_keys(#[trigger] st0[i], st_c[i], ps.take(j + 1)) by {
        let t = st0[i].team;
        let o = st0[i];
        let a = st_a[i];
        let c = st_c[i];
        assert(line_keys(o, a, ps.take(j)));
        assert(opponents(ps.take(j + 1), t) == opponents(ps.take(j), t).union(pairing_opponents(p, t)));
        assert(point_opponents(ps.take(j + 1), t) == point_opponents(ps.take(j), t).union(pairing_point_opponents(p, t)));
        if t == p.teams.0 {
            lemma_first_lines_unique(st0, i, i0);
        }
        if t == p.teams.1 {
            lemma_first_lines_unique(st0, i, i1);
        }
        if i == i0 && i == i1 {
            assert(c.vs_points@.dom() =~= o.vs_points@.dom().union(point_opponents(ps.take(j + 1), t)));
            assert(c.vs_goals_for@.dom() =~= o.vs_goals_for@.dom().union(opponents(ps.take(j + 1), t)));
            assert(c.vs_goals_against@.dom() =~= o.vs_goals_against@.dom().union(opponents(ps.take(j + 1), t)));
        } else if i == i0 {
            assert(st_c[i] == st_b[i]);
            assert(c.vs_points@.dom() =~= o.vs_points@.dom().union(point_opponents(ps.take(j + 1), t)));
            assert(c.vs_goals_for@.dom() =~= o.vs_goals_for@.dom().union(opponents(ps.take(j + 1), t)));
            assert(c.vs_goals_against@.dom() =~= o.vs_goals_against@.dom().union(opponents(ps.take(j + 1), t)));
        } else if i == i1 {
            assert(st_b[i] == st_a[i]);
            assert(c.vs_points@.dom() =~= o.vs_points@.dom().union(point_opponents(ps.take(j + 1), t)));
            assert(c.vs_goals_for@.dom() =~= o.vs_goals_for@.dom().union(opponents(ps.take(j + 1), t)));
            assert(c.vs_goals_against@.dom() =~= o.vs_goals_against@.dom().union(opponents(ps.take(j + 1), t)));
        } else {
            assert(st_c[i] == st_b[i]);
            assert(st_b[i] == st_a[i]);
            assert(pairing_opponents(p, t) =~= Set::<usize>::empty());
            assert(pairing_point_opponents(p, t) =~= Set::<usize>::empty());
            assert(c.vs_points@.dom() =~= o.vs_points@.dom().union(point_opponents(ps.take(j + 1), t)));
            assert(c.vs_goals_for@.dom() =~= o.vs_goals_for@.dom().union(opponents(ps.take(j + 1), t)));
            assert(c.vs_goals_against@.dom() =~= o.vs_goals_against@.dom().union(opponents(ps.take(j + 1), t)));
        }
    }
}

/// Totals of the pairing `j` stay within `u32`.
proof fn lemma_count_bounds(st0: Seq<RoundStats>, ps: Seq<PairingResult>, j: int, pfw: nat, pfd: nat)
    requires
        0 <= j < ps.len(),
        has_line(st0, ps[j].teams.0),
        forall|i: int| 0 <= i < st0.len() && is_first_line(st0, i) ==> line_fits(#[trigger] st0[i], ps, pfw, pfd),
    ensures
        fits_u32_pair(ps[j].spec_total_goals()),
{
    let t = ps[j].teams.0;
    let i = choose|i: int| 0 <= i < st0.len() && st0[i].team == t;
    let i0 = first_of(st0, i);
    lemma_sum_over_prefix(ps, gf_f(t), j);
    lemma_sum_over_prefix(ps, ga_f(t), j);
    lemma_sum_over_prefix_le(ps, gf_f(t), j + 1);
    lemma_sum_over_prefix_le(ps, ga_f(t), j + 1);
    assert(line_fits(st0[i0], ps, pfw, pfd));
}

/// The first line of the team of line `i`.
proof fn first_of(st: Seq<RoundStats>, i: int) -> (r: int)
    requires
        0 <= i < st.len(),
    ensures
        0 <= r <= i,
        st[r].team == st[i].team,
        is_first_line(st, r),
    decreases i,
{
    if exists|j: int| 0 <= j < i && st[j].team == st[i].team {
        let j = choose|j: int| 0 <= j < i && st[j].team == st[i].team;
        first_of(st, j)
    } else {
        i
    }
}

/// Before counting side 0 of pairing `j` on line `i0`, the numbers fit.
proof fn lemma_side_fits(
    st0: Seq<RoundStats>,
    st_a: Seq<RoundStats>,
    ps: Seq<PairingResult>,
    j: int,
    i0: int,
    pfw: nat,
    pfd: nat,
    p0: Option<u32>,
    tg: (u32, u32),
    dummy: bool,
)
    requires
        0 <= j < ps.len(),
        0 <= i0 < st0.len(),
        st_a.len() == st0.len(),
        is_first_line(st0, i0),
        st0[i0].team == ps[j].teams.0,
        line_fits(st0[i0], ps, pfw, pfd),
        line_counted(st0[i0], st_a[i0], ps.take(j), pfw, pfd),
        opt_nat(p0) == points_won(ps[j], 0, pfw, pfd),
        tg.0 == ps[j].spec_total_goals().0,
        tg.1 == ps[j].spec_total_goals().1,
    ensures
        st_a[i0].points + opt_val(opt_nat(p0)) <= u32::MAX,
        st_a[i0].goals_for + tg.0 <= u32::MAX,
        st_a[i0].goals_against + tg.1 <= u32::MAX,
        vs_get(st_a[i0].vs_points@, ps[j].teams.1) + opt_val(opt_nat(p0)) <= u32::MAX,
        vs_get(st_a[i0].vs_goals_for@, ps[j].teams.1) + tg.0 <= u32::MAX,
        vs_get(st_a[i0].vs_goals_against@, ps[j].teams.1) + tg.1 <= u32::MAX,
{
    let t = st0[i0].team;
    let k = ps[j].teams.1;
    lemma_sum_over_prefix(ps, points_f(t, pfw, pfd), j);
    lemma_sum_over_prefix(ps, gf_f(t), j);
    lemma_sum_over_prefix(ps, ga_f(t), j);
    lemma_sum_over_prefix(ps, vs_points_f(t, k, pfw, pfd), j);
    lemma_sum_over_prefix(ps, vs_gf_f(t, k), j);
    lemma_sum_over_prefix(ps, vs_ga_f(t, k), j);
    lemma_sum_over_prefix_le(ps, points_f(t, pfw, pfd), j + 1);
    lemma_sum_over_prefix_le(ps, gf_f(t), j + 1);
    lemma_sum_over_prefix_le(ps, ga_f(t), j + 1);
    lemma_sum_over_prefix_le(ps, vs_points_f(t, k, pfw, pfd), j + 1);
    lemma_sum_over_prefix_le(ps, vs_gf_f(t, k), j + 1);
    lemma_sum_over_prefix_le(ps, vs_ga_f(t, k), j + 1);
    assert(vs_get(st_a[i0].vs_points@, k) == vs_get(st0[i0].vs_points@, k) + sum_over(ps.take(j), vs_points_f(t, k, pfw, pfd)));
    assert(vs_get(st_a[i0].vs_goals_for@, k) == vs_get(st0[i0].vs_goals_for@, k) + sum_over(ps.take(j), vs_gf_f(t, k)));
    assert(vs_get(st_a[i0].vs_goals_against@, k) == vs_get(st0[i0].vs_goals_against@, k) + sum_over(ps.take(j), vs_ga_f(t, k)));
    assert(vs_get(st0[i0].vs_points@, k) + sum_over(ps, vs_points_f(t, k, pfw, pfd)) <= u32::MAX);
    assert(vs_get(st0[i0].vs_goals_for@, k) + sum_over(ps, vs_gf_f(t, k)) <= u32::MAX);
    assert(vs_get(st0[i0].vs_goals_against@, k) + sum_over(ps, vs_ga_f(t, k)) <= u32::MAX);
}

/// Two first lines of the same team are the same line.
proof fn lemma_first_lines_unique(st: Seq<RoundStats>, i: int, j: int)
    requires
        0 <= i < st.len(),
        0 <= j < st.len(),
        is_first_line(st, i),
        is_first_line(st, j),
        st[i].team == st[j].team,
    ensures
        i == j,
{
}

/// Facts about all six sums of a pairing prefix, for line team `t` and opponent `k`.
proof fn lemma_prefix_all(ps: Seq<PairingResult>, j: int, t: usize, k: usize, pfw: nat, pfd: nat)
    requires
        0 <= j < ps.len(),
    ensures
        sum_over(ps.take(j + 1), points_f(t, pfw, pfd)) == sum_over(ps.take(j), points_f(t, pfw, pfd)) + points_gain(t, ps[j], pfw, pfd),
        sum_over(ps.take(j + 1), gf_f(t)) == sum_over(ps.take(j), gf_f(t)) + gf_gain(t, ps[j]),
        sum_over(ps.take(j + 1), ga_f(t)) == sum_over(ps.take(j), ga_f(t)) + ga_gain(t, ps[j]),
        sum_over(ps.take(j + 1), vs_points_f(t, k, pfw, pfd)) == sum_over(ps.take(j), vs_points_f(t, k, pfw, pfd)) + vs_points_gain(t, k, ps[j], pfw, pfd),
        sum_over(ps.take(j + 1), vs_gf_f(t, k)) == sum_over(ps.take(j), vs_gf_f(t, k)) + vs_gf_gain(t, k, ps[j]),
        sum_over(ps.take(j + 1), vs_ga_f(t, k)) == sum_over(ps.take(j), vs_ga_f(t, k)) + vs_ga_gain(t, k, ps[j]),
        sum_over(ps.take(j + 1), points_f(t, pfw, pfd)) <= sum_over(ps, points_f(t, pfw, pfd)),
        sum_over(ps.take(j + 1), gf_f(t)) <= sum_over(ps, gf_f(t)),
        sum_over(ps.take(j + 1), ga_f(t)) <= sum_over(ps, ga_f(t)),
        sum_over(ps.take(j + 1), vs_points_f(t, k, pfw, pfd)) <= sum_over(ps, vs_points_f(t, k, pfw, pfd)),
        sum_over(ps.take(j + 1), vs_gf_f(t, k)) <= sum_over(ps, vs_gf_f(t, k)),
        sum_over(ps.take(j + 1), vs_ga_f(t, k)) <= sum_over(ps, vs_ga_f(t, k)),
{
    lemma_sum_over_prefix(ps, points_f(t, pfw, pfd), j);
    lemma_sum_over_prefix(ps, gf_f(t), j);
    lemma_sum_over_prefix(ps, ga_f(t), j);
    lemma_sum_over_prefix(ps, vs_points_f(t, k, pfw, pfd), j);
    lemma_sum_over_prefix(ps, vs_gf_f(t, k), j);
    lemma_sum_over_prefix(ps, vs_ga_f(t, k), j);
    lemma_sum_over_prefix_le(ps, points_f(t, pfw, pfd), j + 1);
    lemma_sum_over_prefix_le(ps, gf_f(t), j + 1);
    lemma_sum_over_prefix_le(ps, ga_f(t), j + 1);
    lemma_sum_over_prefix_le(ps, vs_points_f(t, k, pfw, pfd), j + 1);
    lemma_sum_over_prefix_le(ps, vs_gf_f(t, k), j + 1);
    lemma_sum_over_prefix_le(ps, vs_ga_f(t, k), j + 1);
}

/// Before counting side 1 of pairing `j` on line `i1`, the numbers fit.
proof fn lemma_side1_fits(
    st0: Seq<RoundStats>,
    st_a: Seq<RoundStats>,
    st_b: Seq<RoundStats>,
    ps: Seq<PairingResult>,
    j: int,
    i0: int,
    i1: int,
    pfw: nat,
    pfd: nat,
    p0: Option<u32>,
    p1: Option<u32>,
    tg: (u32, u32),
)
    requires
        0 <= j < ps.len(),
        0 <= i0 < st0.len(),
        0 <= i1 < st0.len(),
        st_a.len() == st0.len(),
        st_b.len() == st0.len(),
        is_first_line(st0, i0),
        is_first_line(st0, i1),
        st0[i0].team == ps[j].teams.0,
        st0[i1].team == ps[j].teams.1,
        line_fits(st0[i1], ps, pfw, pfd),
        line_counted(st0[i1], st_a[i1], ps.take(j), pfw, pfd),
        side_counted(st_a[i0], st_b[i0], ps[j].teams.1, p0, tg.0, tg.1),
        i1 != i0 ==> st_b[i1] == st_a[i1],
        opt_nat(p0) == points_won(ps[j], 0, pfw, pfd),
        opt_nat(p1) == points_won(ps[j], 1, pfw, pfd),
        tg.0 == ps[j].spec_total_goals().0,
        tg.1 == ps[j].spec_total_goals().1,
    ensures
        st_b[i1].points + opt_val(opt_nat(p1)) <= u32::MAX,
        st_b[i1].goals_for + tg.1 <= u32::MAX,
        st_b[i1].goals_against + tg.0 <= u32::MAX,
        vs_get(st_b[i1].vs_points@, ps[j].teams.0) + opt_val(opt_nat(p1)) <= u32::MAX,
        vs_get(st_b[i1].vs_goals_for@, ps[j].teams.0) + tg.1 <= u32::MAX,
        vs_get(st_b[i1].vs_goals_against@, ps[j].teams.0) + tg.0 <= u32::MAX,
{
    let t = st0[i1].team;
    let k = ps[j].teams.0;
    lemma_prefix_all(ps, j, t, k, pfw, pfd);
    assert(vs_get(st_a[i1].vs_points@, k) == vs_get(st0[i1].vs_points@, k) + sum_over(ps.take(j), vs_points_f(t, k, pfw, pfd)));
    assert(vs_get(st_a[i1].vs_goals_for@, k) == vs_get(st0[i1].vs_goals_for@, k) + sum_over(ps.take(j), vs_gf_f(t, k)));
    assert(vs_get(st_a[i1].vs_goals_against@, k) == vs_get(st0[i1].vs_goals_against@, k) + sum_over(ps.take(j), vs_ga_f(t, k)));
    assert(vs_get(st0[i1].vs_points@, k) + sum_over(ps, vs_points_f(t, k, pfw, pfd)) <= u32::MAX);
    assert(vs_get(st0[i1].vs_goals_for@, k) + sum_over(ps, vs_gf_f(t, k)) <= u32::MAX);
    assert(vs_get(st0[i1].vs_goals_against@, k) + sum_over(ps, vs_ga_f(t, k)) <= u32::MAX);
    if i1 == i0 {
        assert(vs_get(st_b[i1].vs_points@, k) == vs_get(st_a[i1].vs_points@, k) + if k == ps[j].teams.1 { opt_val(opt_nat(p0)) } else { 0 });
        assert(vs_get(st_b[i1].vs_goals_for@, k) == vs_get(st_a[i1].vs_goals_for@, k) + if k == ps[j].teams.1 { tg.0 as nat } else { 0 });
        assert(vs_get(st_b[i1].vs_goals_against@, k) == vs_get(st_a[i1].vs_goals_against@, k) + if k == ps[j].teams.1 { tg.1 as nat } else { 0 });
    }
}

/// After both sides of pairing `j` were counted, every first line holds the
/// counts of the pairings up to `j`, and other lines stay as they were.
#[verifier::spinoff_prover]
#[verifier::rlimit(40)]
proof fn lemma_count_step(
    st0: Seq<RoundStats>,
    st_a: Seq<RoundStats>,
    st_b: Seq<RoundStats>,
    st_c: Seq<RoundStats>,
    ps: Seq<PairingResult>,
    j: int,
    i0: int,
    i1: int,
    pfw: nat,
    pfd: nat,
    p0: Option<u32>,
    p1: Option<u32>,
    tg: (u32, u32),
)
    requires
        0 <= j < ps.len(),
        0 <= i0 < st0.len(),
        0 <= i1 < st0.len(),
        st_a.len() == st0.len(),
        st_b.len() == st0.len(),
        st_c.len() == st0.len(),
        forall|i: int| 0 <= i < st0.len() ==> #[trigger] st_a[i].team == st0[i].team,
        is_first_line(st0, i0),
        is_first_line(st0, i1),
        st0[i0].team == ps[j].teams.0,
        st0[i1].team == ps[j].teams.1,
        forall|i: int| 0 <= i < st0.len() && is_first_line(st0, i)
            ==> line_counted(#[trigger] st0[i], st_a[i], ps.take(j), pfw, pfd),
        forall|i: int| 0 <= i < st0.len() && !is_first_line(st0, i) ==> #[trigger] st_a[i] == st0[i],
        side_counted(st_a[i0], st_b[i0], ps[j].teams.1, p0, tg.0, tg.1),
        forall|i: int| 0 <= i < st0.len() && i != i0 ==> #[trigger] st_b[i] == st_a[i],
        side_counted(st_b[i1], st_c[i1], ps[j].teams.0, p1, tg.1, tg.0),
        forall|i: int| 0 <= i < st0.len() && i != i1 ==> #[trigger] st_c[i] == st_b[i],
        opt_nat(p0) == points_won(ps[j], 0, pfw, pfd),
        opt_nat(p1) == points_won(ps[j], 1, pfw, pfd),
        tg.0 == ps[j].spec_total_goals().0,
        tg.1 == ps[j].spec_total_goals().1,
    ensures
        forall|i: int| 0 <= i < st0.len() ==> #[trigger] st_c[i].team == st0[i].team,
        forall|i: int| 0 <= i < st0.len() && is_first_line(st0, i)
            ==> line_counted(#[trigger] st0[i], st_c[i], ps.take(j + 1), pfw, pfd),
        forall|i: int| 0 <= i < st0.len() && !is_first_line(st0, i) ==> #[trigger] st_c[i] == st0[i],
{
    assert forall|i: int| 0 <= i < st0.len() implies #[trigger] st_c[i].team == st0[i].team by {
        if i != i1 && i != i0 {
            assert(st_c[i] == st_b[i]);
            assert(st_b[i] == st_a[i]);
        } else if i != i1 {
            assert(st_c[i] == st_b[i]);
        }
    }
    assert forall|i: int| 0 <= i < st0.len() && is_first_line(st0, i)
        implies line_counted(#[trigger] st0[i], st_c[i], ps.take(j + 1), pfw, pfd) by {
        let t = st0[i].team;
        let p = ps[j];
        assert(line_counted(st0[i], st_a[i], ps.take(j), pfw, pfd));
        if t == p.teams.0 {
            lemma_first_lines_unique(st0, i, i0);
        }
        if t == p.teams.1 {
            lemma_first_lines_unique(st0, i, i1);
        }
        lemma_prefix_all(ps, j, t, 0, pfw, pfd);
        assert forall|k: usize| #[trigger] vs_get(st_c[i].vs_points@, k) == vs_get(st0[i].vs_points@, k)
            + sum_over(ps.take(j + 1), vs_points_f(t, k, pfw, pfd)) by {
            lemma_prefix_all(ps, j, t, k, pfw, pfd);
            assert(vs_get(st_a[i].vs_points@, k) == vs_get(st0[i].vs_points@, k) + sum_over(ps.take(j), vs_points_f(t, k, pfw, pfd)));
        }
        assert forall|k: usize| #[trigger] vs_get(st_c[i].vs_goals_for@, k) == vs_get(st0[i].vs_goals_for@, k)
            + sum_over(ps.take(j + 1), vs_gf_f(t, k)) by {
            lemma_prefix_all(ps, j, t, k, pfw, pfd);
            assert(vs_get(st_a[i].vs_goals_for@, k) == vs_get(st0[i].vs_goals_for@, k) + sum_over(ps.take(j), vs_gf_f(t, k)));
        }
        assert forall|k: usize| #[trigger] vs_get(st_c[i].vs_goals_against@, k) == vs_get(st0[i].vs_goals_against@, k)
            + sum_over(ps.take(j + 1), vs_ga_f(t, k)) by {
            lemma_prefix_all(ps, j, t, k, pfw, pfd);
            assert(vs_get(st_a[i].vs_goals_against@, k) == vs_get(st0[i].vs_goals_against@, k) + sum_over(ps.take(j), vs_ga_f(t, k)));
        }
    }
    assert forall|i: int| 0 <= i < st0.len() && !is_first_line(st0, i) implies #[trigger] st_c[i] == st0[i] by {
        assert(i != i0 && i != i1);
        assert(st_c[i] == st_b[i]);
        assert(st_b[i] == st_a[i]);
    }
}

// ----------------------------------------------------------------------
// Flags
// ----------------------------------------------------------------------

/// The team that holds flag `f` in a list of flags.
pub open spec fn flag_lookup(v: Seq<(String, usize)>, f: Seq<char>) -> Option<usize>
    decreases v.len(),
{
    if v.len() == 0 {
        None
    } else if v.last().0@ == f {
        Some(v.last().1)
    } else {
        flag_lookup(v.drop_last(), f)
    }
}

/// No flag occurs twice in the list.
pub open spec fn flags_unique(v: Seq<(String, usize)>) -> bool {
    forall|a: int, b: int| 0 <= a < b < v.len() ==> (#[trigger] v[a]).0@ != (#[trigger] v[b]).0@
}

/// The line at place `i` (counted from 0) of the table earns its flag.
pub open spec fn earns_flag(s: RoundStats, i: int) -> bool {
    s.set_flag matches Some(c) && c.cond == Cond::RankMin && i < c.value
}

/// The team that the table `stats` gives flag `f` to: the last line that
/// earns it.
pub open spec fn flag_set_by(stats: Seq<RoundStats>, f: Seq<char>) -> Option<usize>
    decreases stats.len(),
{
    if stats.len() == 0 {
        None
    } else if earns_flag(stats.last(), stats.len() - 1) && stats.last().set_flag->Some_0.flag@ == f {
        Some(stats.last().team)
    } else {
        flag_set_by(stats.drop_last(), f)
    }
}

/// The flags of the list.
pub open spec fn flag_keys(v: Seq<(String, usize)>) -> Seq<Seq<char>> {
    v.map_values(|e: (String, usize)| e.0@)
}

pub(crate) proof fn lemma_lookup_unique(v: Seq<(String, usize)>, f: Seq<char>, i: int)
    requires
        flags_unique(v),
        0 <= i < v.len(),
        v[i].0@ == f,
    ensures
        flag_lookup(v, f) == Some(v[i].1),
    decreases v.len(),
{
    if i < v.len() - 1 {
        assert(v.drop_last()[i] == v[i]);
        assert forall|a: int, b: int| 0 <= a < b < v.drop_last().len() implies
            (#[trigger] v.drop_last()[a]).0@ != (#[trigger] v.drop_last()[b]).0@ by {
            assert(v.drop_last()[a] == v[a] && v.drop_last()[b] == v[b]);
        }
        lemma_lookup_unique(v.drop_last(), f, i);
    }
}

/// Gives flag `f` to team `t`, in place of the team that held it.
fn insert_flag(flags: &mut Vec<(String, usize)>, f: String, t: usize)
    requires
        flags_unique(old(flags)@),
    ensures
        flags_unique(final(flags)@),
        forall|g: Seq<char>| #[trigger] flag_lookup(final(flags)@, g) == if g == f@ { Some(t) } else { flag_lookup(old(flags)@, g) },
{
    let ghost v0 = flags@;
    let mut i: usize = 0;
    while i < flags.len()
        invariant
            flags@ == v0,
            old(flags)@ == v0,
            flags_unique(v0),
            i <= v0.len(),
            forall|j: int| 0 <= j < i ==> (#[trigger] v0[j]).0@ != f@,
        decreases v0.len() - i,
    {
        if flags[i].0 == f {
            let old_entry = flags.remove(i);
            flags.insert(i, (f, t));
            proof {
                let v1 = flags@;
                assert(v1 == v0.update(i as int, (f, t))) by {
                    assert(v1 =~= v0.update(i as int, (f, t)));
                }
                assert forall|a: int, b: int| 0 <= a < b < v1.len() implies (#[trigger] v1[a]).0@ != (#[trigger] v1[b]).0@ by {
                    assert(v0[i as int].0@ == f@);
                    assert(v1[i as int].0@ == f@);
                    if a != i {
                        assert(v1[a] == v0[a]);
                    }
                    if b != i {
                        assert(v1[b] == v0[b]);
                    }
                }
                assert forall|g: Seq<char>| #[trigger] flag_lookup(v1, g) == if g == f@ { Some(t) } else { flag_lookup(v0, g) } by {
                    if g == f@ {
                        lemma_lookup_unique(v1, g, i as int);
                    } else {
                        lemma_lookup_other(v0, i as int, (f, t), g);
                    }
                }
            }
            return;
        }
        i = i + 1;
    }
    let ghost old_v = flags@;
    flags.push((f, t));
    proof {
        let v1 = flags@;
        assert(v1.drop_last() =~= v0);
        assert forall|a: int, b: int| 0 <= a < b < v1.len() implies (#[trigger] v1[a]).0@ != (#[trigger] v1[b]).0@ by {
            if b == v0.len() {
                assert(v1[a] == v0[a]);
            } else {
                assert(v1[a] == v0[a] && v1[b] == v0[b]);
            }
        }
    }
}

/// Replacing one entry's team, under the same flag, changes no other lookup.
proof fn lemma_lookup_other(v: Seq<(String, usize)>, i: int, e: (String, usize), g: Seq<char>)
    requires
        0 <= i < v.len(),
        v[i].0@ == e.0@,
        g != e.0@,
    ensures
        flag_lookup(v.update(i, e), g) == flag_lookup(v, g),
    decreases v.len(),
{
    let w = v.update(i, e);
    if i < v.len() - 1 {
        assert(w.drop_last() =~= v.drop_last().update(i, e));
        lemma_lookup_other(v.drop_last(), i, e, g);
    } else {
        assert(w.drop_last() =~= v.drop_last());
    }
}

/// The flags after `stats` has given its flags to the lines that earn them.
pub open spec fn flags_after(old: Seq<(String, usize)>, stats: Seq<RoundStats>, f: Seq<char>) -> Option<usize> {
    match flag_set_by(stats, f) {
        Some(t) => Some(t),
        None => flag_lookup(old, f),
    }
}

// ----------------------------------------------------------------------
// Entrants of a round
// ----------------------------------------------------------------------

/// Points and goals a team brings from an earlier round.
pub struct PrevStats {
    pub points: u32,
    pub goals_for: u32,
    pub goals_against: u32,
}

/// An entrant of a round, resolved to a team.
pub struct TeamWithFlags {
    pub team: usize,
    pub set_flag: Option<SetFlag>,
    pub prev_stats: Option<PrevStats>,
}

/// Why the entrants of a round cannot be resolved.
pub enum ResolveError {
    /// The round an entrant comes from has not been played.
    RoundNotCompleted(usize),
    /// The place an entrant comes from is not in the table (the place).
    IndexTooLarge(u32),
    /// No check of the entrant matches the flags of the earlier round
    /// (the flags that were set, and the number of checks).
    NoMatchingFlag(Vec<String>, usize),
    /// The flag that a matching check names was not set.
    FlagNotSet(String),
    /// The team that holds a flag has no line in the table.
    NoStatsLine(usize),
}

/// Index of the first check (with its flag) that the flags meet.
pub open spec fn first_match(checks: Seq<(crate::flagcheck::FlagCheck, String)>, keys: Seq<Seq<char>>) -> Option<int>
    decreases checks.len(),
{
    if checks.len() == 0 {
        None
    } else if eval(checks[0].0.expr(), keys) {
        Some(0)
    } else {
        match first_match(checks.drop_first(), keys) {
            Some(i) => Some(i + 1),
            None => None,
        }
    }
}

/// What a line of a table passes on to a later round: points and goals,
/// when the format copies them.
pub open spec fn carried(s: RoundStats, copy: bool) -> Option<(u32, u32, u32)> {
    if copy {
        Some((s.points, s.goals_for, s.goals_against))
    } else {
        None
    }
}

/// View of what an entrant brings.
pub open spec fn prev_view(p: Option<PrevStats>) -> Option<(u32, u32, u32)> {
    match p {
        Some(x) => Some((x.points, x.goals_for, x.goals_against)),
        None => None,
    }
}

/// The first line of team `t` in a table, if any.
pub open spec fn line_of(stats: Seq<RoundStats>, t: usize) -> Option<int> {
    if has_line(stats, t) {
        Some(choose|i: int| 0 <= i < stats.len() && stats[i].team == t && is_first_line(stats, i))
    } else {
        None
    }
}

/// Why an entrant cannot be resolved, as values.
pub enum ResolveFailure {
    RoundNotCompleted(usize),
    IndexTooLarge(u32),
    NoMatchingFlag(Seq<Seq<char>>, nat),
    FlagNotSet(Seq<char>),
    NoStatsLine(usize),
}

/// View of a resolution error.
pub open spec fn failure_view(e: ResolveError) -> ResolveFailure {
    match e {
        ResolveError::RoundNotCompleted(r) => ResolveFailure::RoundNotCompleted(r),
        ResolveError::IndexTooLarge(p) => ResolveFailure::IndexTooLarge(p),
        ResolveError::NoMatchingFlag(f, n) => ResolveFailure::NoMatchingFlag(strings_view(f@), n as nat),
        ResolveError::FlagNotSet(f) => ResolveFailure::FlagNotSet(f@),
        ResolveError::NoStatsLine(t) => ResolveFailure::NoStatsLine(t),
    }
}

/// The team an entrant resolves to and what it brings, or why it cannot be
/// resolved.
pub open spec fn resolve_spec(e: EntrantType, rf: Seq<RoundResult>, copy: bool) -> Result<(usize, Option<(u32, u32, u32)>), ResolveFailure> {
    match e {
        EntrantType::Team(t) => Ok((t, None)),
        EntrantType::Prev(r, rank) => if r >= rf.len() {
            Err(ResolveFailure::RoundNotCompleted(r))
        } else if rank == 0 || rank > rf[r as int].stats@.len() {
            Err(ResolveFailure::IndexTooLarge(rank))
        } else {
            let s = rf[r as int].stats@[rank - 1];
            Ok((s.team, carried(s, copy)))
        },
        EntrantType::PrevFlag(r, checks) => if r >= rf.len() {
            Err(ResolveFailure::RoundNotCompleted(r))
        } else {
            let fin = rf[r as int];
            match first_match(checks@, flag_keys(fin.flags@)) {
                None => Err(ResolveFailure::NoMatchingFlag(flag_keys(fin.flags@), checks@.len())),
                Some(k) => match flag_lookup(fin.flags@, checks@[k].1@) {
                    None => Err(ResolveFailure::FlagNotSet(checks@[k].1@)),
                    Some(t) => if !copy {
                        Ok((t, None))
                    } else {
                        match line_of(fin.stats@, t) {
                            None => Err(ResolveFailure::NoStatsLine(t)),
                            Some(i) => Ok((t, carried(fin.stats@[i], true))),
                        }
                    },
                },
            }
        },
    }
}

/// The outcome of resolving the entrants `es` in order: all their teams,
/// or the first failure.
pub open spec fn resolve_all(es: Seq<Entrant>, rf: Seq<RoundResult>, copy: bool) -> Result<Seq<(usize, Option<(u32, u32, u32)>)>, ResolveFailure>
    decreases es.len(),
{
    if es.len() == 0 {
        Ok(seq![])
    } else {
        match resolve_all(es.drop_last(), rf, copy) {
            Err(e) => Err(e),
            Ok(v) => match resolve_spec(es.last().t, rf, copy) {
                Err(e) => Err(e),
                Ok(x) => Ok(v.push(x)),
            },
        }
    }
}

/// View of resolved entrants: team and what it brings.
pub open spec fn twf_view(v: Seq<TeamWithFlags>) -> Seq<(usize, Option<(u32, u32, u32)>)> {
    v.map_values(|x: TeamWithFlags| (x.team, prev_view(x.prev_stats)))
}

/// The team that holds flag `f`.
fn lookup_flag(flags: &Vec<(String, usize)>, f: &String) -> (res: Option<usize>)
    ensures
        res == flag_lookup(flags@, f@),
{
    let mut i: usize = flags.len();
    proof {
        assert(flags@.take(i as int) =~= flags@);
    }
    while i > 0
        invariant
            i <= flags@.len(),
            flag_lookup(flags@, f@) == flag_lookup(flags@.take(i as int), f@),
        decreases i,
    {
        proof {
            assert(flags@.take(i as int).drop_last() =~= flags@.take(i as int - 1));
        }
        if flags[i - 1].0 == *f {
            return Some(flags[i - 1].1);
        }
        i = i - 1;
    }
    None
}

/// The flags of the list, as strings.
fn flag_names(flags: &Vec<(String, usize)>) -> (res: Vec<String>)
    ensures
        strings_view(res@) == flag_keys(flags@),
{
    let mut res: Vec<String> = Vec::new();
    let mut i: usize = 0;
    while i < flags.len()
        invariant
            i <= flags@.len(),
            strings_view(res@) =~= flag_keys(flags@.take(i as int)),
        decreases flags@.len() - i,
    {
        proof {
            assert(flags@.take(i as int + 1) =~= flags@.take(i as int).push(flags@[i as int]));
        }
        let ghost old_res = res@;
        let name = flags[i].0.clone();
        res.push(name);
        proof {
            assert(res@ =~= old_res.push(name));
            assert(strings_view(res@) =~= strings_view(old_res).push(name@));
            assert(flag_keys(flags@.take(i as int + 1)) =~= flag_keys(flags@.take(i as int)).push(flags@[i as int].0@));
        }
        i = i + 1;
        proof {
            assert(strings_view(res@) =~= flag_keys(flags@.take(i as int)));
        }
    }
    proof {
        assert(flags@.take(flags@.len() as int) =~= flags@);
    }
    res
}

/// The first line of team `t`.
fn find_line(stats: &Vec<RoundStats>, t: usize) -> (res: Option<usize>)
    ensures
        match res {
            Some(i) => i < stats@.len() && line_of(stats@, t) == Some(i as int),
            None => line_of(stats@, t) is None,
        },
{
    let mut i: usize = 0;
    while i < stats.len()
        invariant
            i <= stats@.len(),
            forall|j: int| 0 <= j < i ==> stats@[j].team != t,
        decreases stats@.len() - i,
    {
        if stats[i].team == t {
            proof {
                assert(has_line(stats@, t));
                let c = choose|c: int| 0 <= c < stats@.len() && stats@[c].team == t && is_first_line(stats@, c);
                assert(is_first_line(stats@, i as int));
                lemma_first_lines_unique(stats@, c, i as int);
            }
            return Some(i);
        }
        i = i + 1;
    }
    None
}

/// What line `s` passes on to a later round.
fn carry(s: &RoundStats, copy: bool) -> (res: Option<PrevStats>)
    ensures
        prev_view(res) == carried(*s, copy),
{
    if copy {
        Some(PrevStats { points: s.points, goals_for: s.goals_for, goals_against: s.goals_against })
    } else {
        None
    }
}

/// Resolves one entrant.
fn resolve_one(t: &EntrantType, rounds_finished: &[RoundResult], copy: bool) -> (res: Result<(usize, Option<PrevStats>), ResolveError>)
    ensures
        match resolve_spec(*t, rounds_finished@, copy) {
            Ok(x) => res matches Ok(y) && x == (y.0, prev_view(y.1)),
            Err(e) => res matches Err(f) && failure_view(f) == e,
        },
{
    match t {
        EntrantType::Team(team) => Ok((*team, None)),
        EntrantType::Prev(r, rank) => {
            if *r >= rounds_finished.len() {
                return Err(ResolveError::RoundNotCompleted(*r));
            }
            let fin = &rounds_finished[*r];
            if *rank == 0 || *rank as usize > fin.stats.len() {
                return Err(ResolveError::IndexTooLarge(*rank));
            }
            let stat_entry = &fin.stats[(*rank - 1) as usize];
            Ok((stat_entry.team, carry(stat_entry, copy)))
        },
        EntrantType::PrevFlag(r, flag_checks) => {
            if *r >= rounds_finished.len() {
                return Err(ResolveError::RoundNotCompleted(*r));
            }
            let fin = &rounds_finished[*r];
            let flags = flag_names(&fin.flags);
            let ghost keys = flag_keys(fin.flags@);
            let mut k: usize = 0;
            proof {
                assert(flag_checks@.skip(0) =~= flag_checks@);
            }
            while k < flag_checks.len()
                invariant
                    k <= flag_checks@.len(),
                    strings_view(flags@) == keys,
                    *t == EntrantType::PrevFlag(*r, *flag_checks),
                    *r < rounds_finished@.len(),
                    *fin == rounds_finished@[*r as int],
                    keys == flag_keys(fin.flags@),
                    first_match(flag_checks@, keys) == match first_match(flag_checks@.skip(k as int), keys) {
                        Some(i) => Some(i + k),
                        None => None::<int>,
                    },
                decreases flag_checks@.len() - k,
            {
                let fc = &flag_checks[k];
                proof {
                    assert(flag_checks@.skip(k as int)[0] == flag_checks@[k as int]);
                    assert(flag_checks@.skip(k as int).drop_first() =~= flag_checks@.skip(k as int + 1));
                }
                let ok = fc.0.check(flags.as_slice());
                if let Ok(true) = ok {
                    proof {
                        assert(first_match(flag_checks@.skip(k as int), keys) == Some(0int));
                        assert(first_match(flag_checks@, keys) == Some(k as int));
                    }
                    let flag_to_get = &fc.1;
                    let found = lookup_flag(&fin.flags, flag_to_get);
                    proof {
                        assert(*fc == flag_checks@[k as int]);
                    }
                    match found {
                        None => {
                            return Err(ResolveError::FlagNotSet(flag_to_get.clone()));
                        },
                        Some(team) => {
                            if !copy {
                                return Ok((team, None));
                            }
                            match find_line(&fin.stats, team) {
                                None => {
                                    return Err(ResolveError::NoStatsLine(team));
                                },
                                Some(i) => {
                                    return Ok((team, carry(&fin.stats[i], true)));
                                },
                            }
                        },
                    }
                }
                k = k + 1;
            }
            let n = flag_checks.len();
            Err(ResolveError::NoMatchingFlag(flags, n))
        },
    }
}

/// Resolves the entrants of a round to teams: named teams, places of the
/// tables of earlier rounds and holders of flags set in earlier rounds.
/// With `copy`, entrants from earlier rounds bring their points and goals.
/// An entrant that cannot be resolved (a round not finished, a place the
/// table does not have, no flag check that holds) does not stop the
/// process: the first such entrant comes back as an error value, which the
/// tournament reports as its reason to stop.
pub fn resolve_entrants(entrants: &[Entrant], rounds_finished: &[RoundResult], copy: bool) -> (res: Result<Vec<TeamWithFlags>, ResolveError>)
    ensures
        match resolve_all(entrants@, rounds_finished@, copy) {
            Ok(v) => res matches Ok(w) && twf_view(w@) == v && w@.len() == entrants@.len()
                && forall|i: int| 0 <= i < w@.len() ==> (#[trigger] w@[i]).set_flag == entrants@[i].set_flag,
            Err(e) => res matches Err(f) && failure_view(f) == e,
        },
{
    let mut teams: Vec<TeamWithFlags> = Vec::new();
    let mut i: usize = 0;
    proof {
        assert(entrants@.take(0) =~= Seq::<Entrant>::empty());
        assert(twf_view(teams@) =~= Seq::<(usize, Option<(u32, u32, u32)>)>::empty());
    }
    while i < entrants.len()
        invariant
            i <= entrants@.len(),
            resolve_all(entrants@.take(i as int), rounds_finished@, copy) == Ok::<Seq<(usize, Option<(u32, u32, u32)>)>, ResolveFailure>(twf_view(teams@)),
            teams@.len() == i,
            forall|j: int| 0 <= j < i ==> (#[trigger] teams@[j]).set_flag == entrants@[j].set_flag,
        decreases entrants@.len() - i,
    {
        proof {
            assert(entrants@.take(i as int + 1).drop_last() =~= entrants@.take(i as int));
            assert(entrants@.take(i as int + 1).last() == entrants@[i as int]);
        }
        let entrant = &entrants[i];
        match resolve_one(&entrant.t, rounds_finished, copy) {
            Err(e) => {
                proof {
                    lemma_resolve_prefix_err(entrants@, rounds_finished@, copy, i as int + 1);
                }
                return Err(e);
            },
            Ok((team, prev)) => {
                let ghost old_teams = teams@;
                let ghost pv = prev_view(prev);
                teams.push(TeamWithFlags { team, set_flag: copy_set_flag(&entrant.set_flag), prev_stats: prev });
                proof {
                    assert(teams@.drop_last() =~= old_teams);
                    assert(twf_view(teams@) =~= twf_view(old_teams).push((team, pv)));
                }
            },
        }
        i = i + 1;
    }
    proof {
        assert(entrants@.take(entrants@.len() as int) =~= entrants@);
    }
    Ok(teams)
}

/// Once a prefix of the entrants fails, the whole list fails the same way.
proof fn lemma_resolve_prefix_err(es: Seq<Entrant>, rf: Seq<RoundResult>, copy: bool, i: int)
    requires
        0 <= i <= es.len(),
        resolve_all(es.take(i), rf, copy) is Err,
    ensures
        resolve_all(es, rf, copy) == resolve_all(es.take(i), rf, copy),
    decreases es.len() - i,
{
    if i < es.len() {
        assert(es.take(i + 1).drop_last() =~= es.take(i));
        lemma_resolve_prefix_err(es, rf, copy, i + 1);
    } else {
        assert(es.take(i) =~= es);
    }
}

/// The table lines for resolved entrants: each starts with what it brings,
/// or with nothing.
pub fn gen_stats(twf: &[TeamWithFlags]) -> (res: Vec<RoundStats>)
    ensures
        res@.len() == twf@.len(),
        forall|i: int| 0 <= i < twf@.len() ==> #[trigger] fresh_line(res@[i], twf@[i]),
{
    let mut stats: Vec<RoundStats> = Vec::new();
    let mut i: usize = 0;
    while i < twf.len()
        invariant
            i <= twf@.len(),
            stats@.len() == i,
            forall|j: int| 0 <= j < i ==> #[trigger] fresh_line(stats@[j], twf@[j]),
        decreases twf@.len() - i,
    {
        let t = &twf[i];
        let (points, goals_for, goals_against) = match &t.prev_stats {
            Some(p) => (p.points, p.goals_for, p.goals_against),
            None => (0, 0, 0),
        };
        stats.push(RoundStats {
            team: t.team,
            set_flag: copy_set_flag(&t.set_flag),
            points,
            goals_for,
            goals_against,
            vs_points: HashMap::new(),
            vs_goals_for: HashMap::new(),
            vs_goals_against: HashMap::new(),
        });
        i = i + 1;
    }
    stats
}

/// A new table line for an entrant: its team and flag, what it brings, and
/// no head-to-head results.
pub open spec fn fresh_line(s: RoundStats, t: TeamWithFlags) -> bool {
    &&& s.team == t.team
    &&& s.set_flag == t.set_flag
    &&& (s.points, s.goals_for, s.goals_against) == match prev_view(t.prev_stats) {
        Some(p) => p,
        None => (0u32, 0u32, 0u32),
    }
    &&& s.vs_points@ == Map::<usize, u32>::empty()
    &&& s.vs_goals_for@ == Map::<usize, u32>::empty()
    &&& s.vs_goals_against@ == Map::<usize, u32>::empty()
}

/// Lines with points first, then lines without, each in their order.
pub open spec fn winners_first(s: Seq<RoundStats>) -> (Seq<RoundStats>, Seq<RoundStats>)
    decreases s.len(),
{
    if s.len() == 0 {
        (seq![], seq![])
    } else {
        let (w, l) = winners_first(s.drop_last());
        if s.last().points > 0 {
            (w.push(s.last()), l)
        } else {
            (w, l.push(s.last()))
        }
    }
}

/// The table `new` is the table `old` ordered as a round of mode `mode`
/// orders it: round robin tables by the criteria `rb`, tables of
/// `ranking_sort` by points, goal difference and goals; a playoff lists the
/// winners (teams with points) first; a `ranking` keeps the order of the
/// entrants.
pub open spec fn ordered(mode: Mode, old: Seq<RoundStats>, new: Seq<RoundStats>, rb: Seq<RankBy>) -> bool {
    match mode {
        Mode::RoundRobin => sorted_from(old, new, rb, false),
        Mode::RankingSort => sorted_from(old, new, rb, true),
        Mode::Playoff => new == winners_first(old).0 + winners_first(old).1,
        Mode::Ranking => new == old,
    }
}

/// The flags a table sets, given the flags that were set before.
pub open spec fn flags_set(old: Seq<(String, usize)>, new: Seq<(String, usize)>, stats: Seq<RoundStats>) -> bool {
    &&& flags_unique(new)
    &&& forall|f: Seq<char>| #[trigger] flag_lookup(new, f) == flags_after(old, stats, f)
}

impl RoundResult {
    /// Orders the table as the mode of the round asks: round robin tables by
    /// the criteria of the format, tables of `ranking_sort` by points, goal
    /// difference and goals; a playoff lists the winners (teams with points)
    /// first; a `ranking` keeps the order of the entrants. Sorting is stable.
    pub fn sort_stats(&mut self, rank_by: &Vec<RankBy>)
        requires
            old(self).mode == Mode::RoundRobin ==> all_bounded_for(old(self).stats@, rank_by@, false),
            old(self).mode == Mode::RankingSort ==> all_bounded_for(old(self).stats@, rank_by@, true),
        ensures
            final(self).id == old(self).id,
            final(self).name == old(self).name,
            final(self).mode == old(self).mode,
            final(self).pairings == old(self).pairings,
            final(self).flags == old(self).flags,
            ordered(old(self).mode, old(self).stats@, final(self).stats@, rank_by@),
    {
        match self.mode {
            Mode::RoundRobin => {
                stable_sort(&mut self.stats, rank_by, false);
            },
            Mode::Playoff => {
                let mut all: Vec<RoundStats> = Vec::new();
                std::mem::swap(&mut all, &mut self.stats);
                let ghost orig = all@;
                let mut winners: Vec<RoundStats> = Vec::new();
                let mut losers: Vec<RoundStats> = Vec::new();
                let ghost mut k: int = 0;
                proof {
                    assert(orig.skip(0) =~= orig);
                    assert(orig.take(0) =~= Seq::<RoundStats>::empty());
                }
                while all.len() > 0
                    invariant
                        0 <= k <= orig.len(),
                        all@ == orig.skip(k),
                        winners@ == winners_first(orig.take(k)).0,
                        losers@ == winners_first(orig.take(k)).1,
                    decreases all@.len(),
                {
                    proof {
                        assert(all@[0] == orig[k]);
                        assert(orig.take(k + 1).drop_last() =~= orig.take(k));
                    }
                    let x = all.remove(0);
                    if x.points > 0 {
                        winners.push(x);
                    } else {
                        losers.push(x);
                    }
                    proof {
                        assert(all@ =~= orig.skip(k + 1));
                        k = k + 1;
                    }
                }
                proof {
                    assert(orig.skip(k).len() == 0);
                    assert(orig.take(k) =~= orig);
                }
                winners.append(&mut losers);
                self.stats = winners;
            },
            Mode::Ranking => {},
            Mode::RankingSort => {
                stable_sort(&mut self.stats, rank_by, true);
            },
        }
    }

    /// Gives each flag of the table to the team of the last line that earns
    /// it (a line at place `i`, from 0, earns its flag when `i` is below the
    /// flag's value); flags that no line earns keep their team.
    pub fn set_flags(&mut self)
        requires
            flags_unique(old(self).flags@),
        ensures
            final(self).id == old(self).id,
            final(self).name == old(self).name,
            final(self).mode == old(self).mode,
            final(self).pairings == old(self).pairings,
            final(self).stats == old(self).stats,
            flags_set(old(self).flags@, final(self).flags@, old(self).stats@),
    {
        let ghost f0 = self.flags@;
        let ghost st = self.stats@;
        let ghost id0 = self.id;
        let ghost name0 = self.name;
        let ghost mode0 = self.mode;
        let ghost pairings0 = self.pairings;
        let ghost stats0 = self.stats;
        let mut i: usize = 0;
        proof {
            assert(st.take(0).len() == 0);
        }
        while i < self.stats.len()
            invariant
                st == self.stats@,
                self.id == id0,
                self.name == name0,
                self.mode == mode0,
                self.pairings == pairings0,
                self.stats == stats0,
                i <= st.len(),
                flags_unique(self.flags@),
                forall|f: Seq<char>| #[trigger] flag_lookup(self.flags@, f) == flags_after(f0, st.take(i as int), f),
            decreases st.len() - i,
        {
            proof {
                assert(st.take(i as int + 1).drop_last() =~= st.take(i as int));
                assert(st.take(i as int + 1).last() == st[i as int]);
            }
            let ghost before = self.flags@;
            if let Some(ref c) = self.stats[i].set_flag {
                match c.cond {
                    Cond::RankMin => {
                        if (i as u64) < (c.value as u64) {
                            let flag = c.flag.clone();
                            let team = self.stats[i].team;
                            insert_flag(&mut self.flags, flag, team);
                        }
                    },
                }
            }
            i = i + 1;
        }
        proof {
            assert(st.take(st.len() as int) =~= st);
        }
    }
}

// ----------------------------------------------------------------------
// Pairings of a round
// ----------------------------------------------------------------------

/// A pairing of teams `t0` and `t1` before it is played: one match at
/// `location`, no winner yet.
pub open spec fn fresh_pairing(p: PairingResult, t0: usize, t1: usize, location: MatchLocation, needs_winner: bool) -> bool {
    &&& p.teams == (t0, t1)
    &&& p.match_results@.len() == 1
    &&& p.match_results@[0].location == location
    &&& p.match_results@[0].result is None
    &&& p.winner is None
    &&& p.needs_winner == needs_winner
}

/// Where the matches of a format are played.
pub open spec fn location_of(neutral: bool) -> MatchLocation {
    if neutral {
        MatchLocation::Neutral
    } else {
        MatchLocation::Home1
    }
}

/// Every game of `order` names two entrants, by numbers from 1.
pub open spec fn order_in_range(order: Seq<Seq<u32>>, n: nat) -> bool {
    forall|i: int| 0 <= i < order.len() ==> (#[trigger] order[i]).len() >= 2 && 1 <= order[i][0] <= n && 1 <= order[i][1] <= n
}

/// The pairings are the games of `order`, between the entrants they name.
pub open spec fn pairings_follow(ps: Seq<PairingResult>, order: Seq<Seq<u32>>, teams: Seq<usize>, location: MatchLocation) -> bool {
    &&& ps.len() == order.len()
    &&& forall|i: int| 0 <= i < ps.len() ==> fresh_pairing(
        #[trigger] ps[i],
        teams[order[i][0] - 1],
        teams[order[i][1] - 1],
        location,
        false,
    )
}

/// The teams of resolved entrants.
pub open spec fn team_seq(twf: Seq<TeamWithFlags>) -> Seq<usize> {
    twf.map_values(|x: TeamWithFlags| x.team)
}

/// The pairings that a format makes of entrants with the teams `teams`. A
/// round robin plays the games of the format's order, or of a generated
/// schedule; a playoff pairs the first entrant with the second, the third
/// with the fourth and so on, and each of its pairings needs a winner; the
/// ranking modes play no games.
pub open spec fn pairings_made(ps: Seq<PairingResult>, format: Format, teams: Seq<usize>) -> bool {
    &&& format.mode == Mode::RoundRobin ==> exists|o: Seq<Seq<u32>>|
        round_robin_order(o, format, teams.len()) && order_in_range(o, teams.len()) && pairings_follow(
            ps,
            o,
            teams,
            location_of(format.neutral),
        )
    &&& format.mode == Mode::Playoff ==> ps.len() == teams.len() / 2 && forall|i: int|
        0 <= i < ps.len() ==> fresh_pairing(
            #[trigger] ps[i],
            teams[2 * i],
            teams[2 * i + 1],
            location_of(format.neutral),
            true,
        )
    &&& format.mode == Mode::Ranking || format.mode == Mode::RankingSort ==> ps.len() == 0
}

/// The order a round robin format plays: given by hand, or generated.
pub open spec fn round_robin_order(o: Seq<Seq<u32>>, format: Format, n: nat) -> bool {
    match format.order {
        Some(given) => o == games_view(given@),
        None => {
            &&& (!format.random ==> o == schedule(n, format.legs as nat))
            &&& (format.random ==> exists|order: Seq<usize>|
                is_order_of(order, ((places(n) - 1) * format.legs) as nat) && o == reorder_rounds(
                    schedule(n, format.legs as nat),
                    order,
                    games_per_round(n),
                ))
        },
    }
}

/// A round robin format can be paired for `n` entrants: the given order
/// names them, or a schedule can be generated (it needs three teams).
pub open spec fn pairable(format: Format, n: nat) -> bool {
    format.mode == Mode::RoundRobin ==> match format.order {
        Some(given) => order_in_range(games_view(given@), n),
        None => 3 <= n < u32::MAX && sizes_fit(n, format.legs as nat),
    }
}

/// Games of a generated round robin schedule name entrants within range.
proof fn lemma_schedule_in_range(n: nat, legs: nat, random: bool, o: Seq<Seq<u32>>)
    requires
        3 <= n < u32::MAX,
        !random ==> o == schedule(n, legs),
        random ==> exists|order: Seq<usize>|
            is_order_of(order, ((places(n) - 1) * legs) as nat) && o == reorder_rounds(schedule(n, legs), order, games_per_round(n)),
    ensures
        order_in_range(o, n),
{
    crate::gen_pairing::lemma_schedule_values(n, legs);
    if random {
        let order = choose|order: Seq<usize>|
            is_order_of(order, ((places(n) - 1) * legs) as nat) && o == reorder_rounds(schedule(n, legs), order, games_per_round(n));
        crate::gen_pairing::lemma_order_blocks(n, legs, order);
        crate::gen_pairing::lemma_reorder_values(schedule(n, legs), order, games_per_round(n), n);
    }
}

/// Pairs up the entrants of a round as the format says (see
/// [`pairings_made`]).
pub fn gen_pairings(format: &Format, twf: &[TeamWithFlags]) -> (res: Vec<PairingResult>)
    requires
        pairable(*format, twf@.len()),
    ensures
        pairings_made(res@, *format, team_seq(twf@)),
{
    let mut pairings: Vec<PairingResult> = Vec::new();
    let location = if format.neutral { MatchLocation::Neutral } else { MatchLocation::Home1 };
    assert(team_seq(twf@).len() == twf@.len());
    if format.mode == Mode::RoundRobin {
        let o: Vec<Vec<u32>> = match &format.order {
            Some(given) => crate::gen_pairing::copy_games(given),
            None => generate_round_robin(twf.len() as u32, format.legs, format.random),
        };
        let ghost ov = games_view(o@);
        proof {
            if format.order is None {
                lemma_schedule_in_range(twf@.len(), format.legs as nat, format.random, ov);
            }
        }
        let mut i: usize = 0;
        while i < o.len()
            invariant
                i <= o@.len(),
                ov == games_view(o@),
                order_in_range(ov, twf@.len()),
                pairings@.len() == i,
                forall|k: int| 0 <= k < i ==> fresh_pairing(
                    #[trigger] pairings@[k],
                    team_seq(twf@)[ov[k][0] - 1],
                    team_seq(twf@)[ov[k][1] - 1],
                    location,
                    false,
                ),
            decreases o@.len() - i,
        {
            let p = &o[i];
            proof {
                assert(ov[i as int] == p@);
            }
            let mut matches: Vec<Match> = Vec::new();
            matches.push(Match { location, result: None });
            pairings.push(PairingResult {
                teams: (twf[(p[0] - 1) as usize].team, twf[(p[1] - 1) as usize].team),
                match_results: matches,
                winner: None,
                needs_winner: false,
            });
            i = i + 1;
        }
        proof {
            assert(round_robin_order(ov, *format, twf@.len()));
            assert(pairings_follow(pairings@, ov, team_seq(twf@), location_of(format.neutral)));
        }
    } else if format.mode == Mode::Playoff {
        let mut i: usize = 0;
        while i < twf.len() / 2
            invariant
                i <= twf@.len() / 2,
                pairings@.len() == i,
                format.mode == Mode::Playoff,
                forall|k: int| 0 <= k < i ==> fresh_pairing(
                    #[trigger] pairings@[k],
                    team_seq(twf@)[2 * k],
                    team_seq(twf@)[2 * k + 1],
                    location,
                    true,
                ),
            decreases twf@.len() / 2 - i,
        {
            let mut matches: Vec<Match> = Vec::new();
            matches.push(Match { location, result: None });
            pairings.push(PairingResult {
                teams: (twf[2 * i].team, twf[2 * i + 1].team),
                match_results: matches,
                winner: None,
                needs_winner: true,
            });
            i = i + 1;
        }
    }
    proof {
        if format.mode == Mode::RoundRobin {
        } else if format.mode == Mode::Playoff {
            assert(pairings@.len() == team_seq(twf@).len() / 2);
        } else {
            assert(pairings@.len() == 0);
        }
    }
    pairings
}

/// Both counts fit in `u32`.
pub open spec fn fits_u32_pair(p: (nat, nat)) -> bool {
    p.0 <= u32::MAX && p.1 <= u32::MAX
}


/// The entrants resolved in order are, one by one, each entrant resolved.
proof fn lemma_resolve_all_each(es: Seq<Entrant>, rf: Seq<RoundResult>, copy: bool, i: int)
    requires
        resolve_all(es, rf, copy) is Ok,
        0 <= i < es.len(),
    ensures
        resolve_all(es, rf, copy)->Ok_0.len() == es.len(),
        resolve_spec(es[i].t, rf, copy) == Ok::<(usize, Option<(u32, u32, u32)>), ResolveFailure>(
            resolve_all(es, rf, copy)->Ok_0[i],
        ),
    decreases es.len(),
{
    let d = es.drop_last();
    if i < es.len() - 1 {
        assert(d[i] == es[i]);
        lemma_resolve_all_each(d, rf, copy, i);
    } else if d.len() > 0 {
        lemma_resolve_all_each(d, rf, copy, 0);
    }
}

/// A round's new table starts each entrant taken from an earlier round with
/// that round's counts when its format copies them: an entrant from place
/// `rank` gets the points, goals scored and goals conceded of that place's
/// line, and an entrant chosen by flag gets those of its team's first line
/// there. Without copying, every line starts from nothing.
pub proof fn lemma_entrants_bring_their_line(
    es: Seq<Entrant>,
    rf: Seq<RoundResult>,
    copy: bool,
    w: Seq<TeamWithFlags>,
    stats: Seq<RoundStats>,
    i: int,
)
    requires
        resolve_all(es, rf, copy) == Ok::<Seq<(usize, Option<(u32, u32, u32)>)>, ResolveFailure>(twf_view(w)),
        stats.len() == w.len(),
        forall|j: int| 0 <= j < w.len() ==> #[trigger] fresh_line(stats[j], w[j]),
        0 <= i < es.len(),
    ensures
        !copy ==> stats[i].points == 0 && stats[i].goals_for == 0 && stats[i].goals_against == 0,
        copy ==> (es[i].t matches EntrantType::Prev(r, rank) ==> {
            &&& r < rf.len()
            &&& 1 <= rank <= rf[r as int].stats@.len()
            &&& stats[i].team == rf[r as int].stats@[rank - 1].team
            &&& stats[i].points == rf[r as int].stats@[rank - 1].points
            &&& stats[i].goals_for == rf[r as int].stats@[rank - 1].goals_for
            &&& stats[i].goals_against == rf[r as int].stats@[rank - 1].goals_against
        }),
        copy ==> (es[i].t matches EntrantType::PrevFlag(r, _) ==> exists|k: int| {
            &&& 0 <= k < rf[r as int].stats@.len()
            &&& is_first_line(rf[r as int].stats@, k)
            &&& #[trigger] rf[r as int].stats@[k].team == stats[i].team
            &&& stats[i].points == rf[r as int].stats@[k].points
            &&& stats[i].goals_for == rf[r as int].stats@[k].goals_for
            &&& stats[i].goals_against == rf[r as int].stats@[k].goals_against
        }),
{
    lemma_resolve_all_each(es, rf, copy, i);
    assert(twf_view(w)[i] == (w[i].team, prev_view(w[i].prev_stats)));
    assert(fresh_line(stats[i], w[i]));
    if copy {
        if let EntrantType::PrevFlag(r, checks) = es[i].t {
            let fin = rf[r as int];
            let t = stats[i].team;
            assert(line_of(fin.stats@, t) is Some);
            let j = choose|j: int| 0 <= j < fin.stats@.len() && fin.stats@[j].team == t;
            let f = first_of(fin.stats@, j);
            let k = line_of(fin.stats@, t)->Some_0;
            assert(0 <= k < fin.stats@.len() && fin.stats@[k].team == t && is_first_line(fin.stats@, k));
        }
    }
}


/// A playoff table puts the lines with points (the winners) before the
/// lines without, each group in its order, and keeps every line.
pub proof fn lemma_winners_first(s: Seq<RoundStats>)
    ensures
        winners_first(s).0.len() + winners_first(s).1.len() == s.len(),
        forall|i: int| 0 <= i < winners_first(s).0.len() ==> (#[trigger] winners_first(s).0[i]).points > 0,
        forall|i: int| 0 <= i < winners_first(s).1.len() ==> (#[trigger] winners_first(s).1[i]).points == 0,
        winners_first(s).0 == s.filter(|x: RoundStats| x.points > 0),
        winners_first(s).1 == s.filter(|x: RoundStats| x.points == 0),
    decreases s.len(),
{
    if s.len() > 0 {
        lemma_winners_first(s.drop_last());
        s.drop_last().lemma_filter_push(s.last(), |x: RoundStats| x.points > 0);
        s.drop_last().lemma_filter_push(s.last(), |x: RoundStats| x.points == 0);
        assert(s.drop_last().push(s.last()) =~= s);
    } else {
        assert(s.filter(|x: RoundStats| x.points > 0) =~= Seq::<RoundStats>::empty());
        assert(s.filter(|x: RoundStats| x.points == 0) =~= Seq::<RoundStats>::empty());
    }
}


/// A table gives flag `f` to the team of the last line, at place `i` (from
/// 0), whose flag it is and whose place is below the flag's value; a flag
/// that no line earns so is given to nobody.
pub proof fn lemma_flag_goes_to_last_earner(stats: Seq<RoundStats>, f: Seq<char>, i: int)
    requires
        0 <= i <= stats.len(),
        i < stats.len() ==> (stats[i].set_flag matches Some(c) && c.flag@ == f && i < c.value),
        forall|j: int| i < j < stats.len() ==> !((#[trigger] stats[j]).set_flag matches Some(c) && c.flag@ == f && j < c.value),
        i == stats.len() ==> forall|j: int| 0 <= j < stats.len() ==> !((#[trigger] stats[j]).set_flag matches Some(c) && c.flag@ == f
            && j < c.value),
    ensures
        i < stats.len() ==> flag_set_by(stats, f) == Some(stats[i].team),
        i == stats.len() ==> flag_set_by(stats, f) is None,
    decreases stats.len(),
{
    if stats.len() > 0 {
        let n = stats.len() - 1;
        let d = stats.drop_last();
        assert(stats.last() == stats[n]);
        if i < stats.len() && i == n {
            match stats[n].set_flag {
                Some(c) => { assert(c.cond == Cond::RankMin); },
                None => {},
            }
        } else {
            assert(!(stats[n].set_flag matches Some(c) && c.flag@ == f && n < c.value));
            if i < stats.len() {
                assert forall|j: int| i < j < d.len() implies !((#[trigger] d[j]).set_flag matches Some(c) && c.flag@ == f && j < c.value) by {
                    assert(d[j] == stats[j]);
                }
                assert(d[i] == stats[i]);
                lemma_flag_goes_to_last_earner(d, f, i);
            } else {
                assert forall|j: int| 0 <= j < d.len() implies !((#[trigger] d[j]).set_flag matches Some(c) && c.flag@ == f && j < c.value) by {
                    assert(d[j] == stats[j]);
                }
                lemma_flag_goes_to_last_earner(d, f, d.len() as int);
            }
        }
    }
}


/// The outcome of a score: the side with more goals wins, equal goals draw,
/// and swapping the sides swaps the winner.
pub proof fn lemma_winner_by_goals(a: nat, b: nat)
    ensures
        (winner_of((a, b)) == MatchWinner::WinTeam1) == (a > b),
        (winner_of((a, b)) == MatchWinner::WinTeam2) == (b > a),
        (winner_of((a, b)) == MatchWinner::Draw) == (a == b),
        winner_of((a, b)) == MatchWinner::WinTeam1 <==> winner_of((b, a)) == MatchWinner::WinTeam2,
{
}

/// Away goals are the goals a team scored at the other team's home: a
/// match at the first team's home gives the second team its goals as away
/// goals and the first none, a match at the second team's home the other
/// way round, and a neutral or unplayed match none; so a team's away goals
/// never exceed its goals.
pub proof fn lemma_away_goals(ms: Seq<Match>)
    ensures
        away_sum(ms).0 <= goals_sum(ms).0,
        away_sum(ms).1 <= goals_sum(ms).1,
        forall|m: Match| #![trigger match_away_goals(m)] m.result is Some ==> match m.location {
            MatchLocation::Home1 => match_away_goals(m) == (0nat, match_goals(m).1),
            MatchLocation::Home2 => match_away_goals(m) == (match_goals(m).0, 0nat),
            MatchLocation::Neutral => match_away_goals(m) == (0nat, 0nat),
        },
    decreases ms.len(),
{
    if ms.len() > 0 {
        lemma_away_goals(ms.drop_last());
    }
}

} // verus!
