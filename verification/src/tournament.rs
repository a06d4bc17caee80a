//! Running a tournament, round by round and pairing by pairing.
//!
//! The simulation of matches and the Elo arithmetic work on floating point
//! numbers and stay with the caller. [`calc`] takes the caller's answer to
//! its last request and gives the next request: the caller simulates a
//! match, extra time or a penalty shootout, or computes new ratings, and
//! hands back the outcome. The library decides everything else: who plays
//! whom, which tie-breakers apply and in which order, the tables and the
//! flags that route teams into later rounds.
use vstd::prelude::*;
use crate::common::MatchWinner;
use crate::config::{Config, Format, Mode, RankBy, Round, SetFlag, Team, EntrantType, Entrant, config_wf};
use crate::result::{
    PairingResult, RoundResult, RoundStats, Match, MatchLocation, ResolveError, ResolveFailure, goals_sum, away_sum,
    winner_of, get_winner, fits_u32_pair, has_line, failure_view, sum_over, vs_get, is_first_line,
    line_fits, points_f, vs_points_f, points_gain, vs_points_gain, gf_f, ga_f, vs_gf_f, vs_ga_f, stats_updated, ordered, flags_set, flag_lookup,
    flags_after, flag_set_by, winners_first, opt_val, points_won, line_bounded, resolve_all,
    pairings_made, pairable, order_in_range, pairings_follow, fresh_pairing, team_seq, twf_view,
    fresh_line, resolve_entrants, gen_pairings, gen_stats,
};
use crate::gen_pairing::games_view;
use crate::ranking::all_bounded;
use crate::sim::{MatchResult, add_counts, opt_counts, goals_view};

verus! {

/// Which extra time: after the planned matches, after the replay, or in
/// the repeated replays.
#[derive(PartialEq, Eq, Structural, Clone, Copy, Debug)]
pub enum Stage {
    First,
    Second,
    Repeat,
}

/// What the tournament waits for.
#[derive(PartialEq, Eq, Structural, Clone, Copy, Debug)]
pub enum Wait {
    /// A go-ahead to start the next round (or to end the tournament).
    RoundStart,
    /// The result of planned match `m` of the pairing.
    Planned(usize),
    /// New ratings after planned match `m`.
    PlannedElo(usize),
    /// Extra time of the last match.
    Extra(Stage),
    /// New ratings after extra time that decided the pairing.
    ExtraElo(Stage),
    /// The result of the replay.
    Replay,
    /// New ratings after the replay.
    ReplayElo,
    /// A penalty shootout after the last match.
    Penalties,
    /// New ratings after a shootout that decided the pairing.
    PenaltiesElo,
    /// The result of another replay (replays go on until one decides).
    Repeat,
    /// New ratings after that replay.
    RepeatElo,
    /// A go-ahead after the pairing was settled.
    PairingOver,
    /// Nothing: the tournament is over.
    Over,
}

/// Where the settling of a drawn pairing goes on from.
#[derive(PartialEq, Eq, Structural, Clone, Copy, Debug)]
pub enum Label {
    /// The planned matches have been played.
    AfterPlanned,
    /// Extra time after the planned matches.
    ExtraFirst,
    /// A single replay.
    ReplayOnce,
    /// Extra time after the replay.
    ExtraSecond,
    /// A penalty shootout.
    Shootout,
    /// Replays until one decides.
    Repeat,
}

/// What the settling of a pairing comes to.
#[derive(PartialEq, Eq, Structural, Clone, Copy, Debug)]
pub enum Next {
    /// It waits for more play.
    Await(Wait),
    /// The pairing is still drawn and is decided by lot.
    Lots,
    /// The pairing is settled.
    Decided,
}

/// The criteria contain `r`.
pub open spec fn ranks_by(rb: Seq<RankBy>, r: RankBy) -> bool {
    rb.contains(r)
}

/// Settled as it stands: by lot if still drawn.
pub open spec fn lots_or_decided(w: MatchWinner) -> (Next, MatchWinner) {
    if w == MatchWinner::Draw {
        (Next::Lots, w)
    } else {
        (Next::Decided, w)
    }
}

/// From the replays that go on until one decides.
pub open spec fn settle_repeat(w: MatchWinner, rb: Seq<RankBy>) -> (Next, MatchWinner) {
    if w == MatchWinner::Draw && ranks_by(rb, RankBy::ReplayAlways) {
        (Next::Await(Wait::Repeat), w)
    } else {
        lots_or_decided(w)
    }
}

/// From the penalty shootout.
pub open spec fn settle_shootout(w: MatchWinner, rb: Seq<RankBy>) -> (Next, MatchWinner) {
    if w == MatchWinner::Draw && ranks_by(rb, RankBy::Penalties) {
        (Next::Await(Wait::Penalties), w)
    } else {
        settle_repeat(w, rb)
    }
}

/// From the extra time after the replay.
pub open spec fn settle_extra_second(w: MatchWinner, rb: Seq<RankBy>) -> (Next, MatchWinner) {
    if w == MatchWinner::Draw && ranks_by(rb, RankBy::Extra) {
        (Next::Await(Wait::Extra(Stage::Second)), w)
    } else {
        settle_shootout(w, rb)
    }
}

/// From the single replay: a drawn pairing is replayed, if the criteria say
/// so, and then gets extra time, if they say so.
pub open spec fn settle_replay(w: MatchWinner, rb: Seq<RankBy>) -> (Next, MatchWinner) {
    if w == MatchWinner::Draw {
        if ranks_by(rb, RankBy::ReplayOnce) {
            (Next::Await(Wait::Replay), w)
        } else {
            settle_extra_second(w, rb)
        }
    } else {
        settle_shootout(w, rb)
    }
}

/// From the extra time after the planned matches.
pub open spec fn settle_extra_first(w: MatchWinner, rb: Seq<RankBy>) -> (Next, MatchWinner) {
    if w == MatchWinner::Draw && ranks_by(rb, RankBy::Extra) {
        (Next::Await(Wait::Extra(Stage::First)), w)
    } else {
        settle_replay(w, rb)
    }
}

/// After the planned matches: a pairing that needs no winner is settled; a
/// drawn one that does is decided by away goals, if the criteria say so,
/// and otherwise goes on to extra time.
pub open spec fn settle_planned(w: MatchWinner, away: MatchWinner, needs: bool, rb: Seq<RankBy>) -> (Next, MatchWinner) {
    if !needs {
        (Next::Decided, w)
    } else {
        let w2 = if w == MatchWinner::Draw && ranks_by(rb, RankBy::AwayGoals) {
            away
        } else {
            w
        };
        settle_extra_first(w2, rb)
    }
}

/// The settling of a pairing from `l`, with outcome `w` so far, `away` by
/// away goals, whether it needs a winner, and the criteria of the format:
/// where it waits next (or that it is settled) and the outcome then.
pub open spec fn settle(l: Label, w: MatchWinner, away: MatchWinner, needs: bool, rb: Seq<RankBy>) -> (Next, MatchWinner) {
    match l {
        Label::AfterPlanned => settle_planned(w, away, needs, rb),
        Label::ExtraFirst => settle_extra_first(w, rb),
        Label::ReplayOnce => settle_replay(w, rb),
        Label::ExtraSecond => settle_extra_second(w, rb),
        Label::Shootout => settle_shootout(w, rb),
        Label::Repeat => settle_repeat(w, rb),
    }
}

/// The criteria contain `r`.
fn has_rank(rb: &Vec<RankBy>, r: RankBy) -> (res: bool)
    ensures
        res == ranks_by(rb@, r),
{
    let mut i: usize = 0;
    while i < rb.len()
        invariant
            i <= rb@.len(),
            forall|j: int| 0 <= j < i ==> rb@[j] != r,
        decreases rb@.len() - i,
    {
        if rb[i] == r {
            proof {
                assert(rb@[i as int] == r);
            }
            return true;
        }
        i = i + 1;
    }
    false
}

/// Settles a pairing from `l` as far as decisions go (see [`settle`]).
fn settle_exec(l: Label, w: MatchWinner, away: MatchWinner, needs: bool, rb: &Vec<RankBy>) -> (res: (Next, MatchWinner))
    ensures
        res == settle(l, w, away, needs, rb@),
{
    let mut l = l;
    let mut w = w;
    if l == Label::AfterPlanned {
        if !needs {
            return (Next::Decided, w);
        }
        if w == MatchWinner::Draw && has_rank(rb, RankBy::AwayGoals) {
            w = away;
        }
        l = Label::ExtraFirst;
    }
    if l == Label::ExtraFirst {
        if w == MatchWinner::Draw && has_rank(rb, RankBy::Extra) {
            return (Next::Await(Wait::Extra(Stage::First)), w);
        }
        l = Label::ReplayOnce;
    }
    if l == Label::ReplayOnce {
        if w == MatchWinner::Draw {
            if has_rank(rb, RankBy::ReplayOnce) {
                return (Next::Await(Wait::Replay), w);
            }
            l = Label::ExtraSecond;
        } else {
            l = Label::Shootout;
        }
    }
    if l == Label::ExtraSecond {
        if w == MatchWinner::Draw && has_rank(rb, RankBy::Extra) {
            return (Next::Await(Wait::Extra(Stage::Second)), w);
        }
        l = Label::Shootout;
    }
    if l == Label::Shootout {
        if w == MatchWinner::Draw && has_rank(rb, RankBy::Penalties) {
            return (Next::Await(Wait::Penalties), w);
        }
    }
    if w == MatchWinner::Draw && has_rank(rb, RankBy::ReplayAlways) {
        return (Next::Await(Wait::Repeat), w);
    }
    if w == MatchWinner::Draw {
        (Next::Lots, w)
    } else {
        (Next::Decided, w)
    }
}

/// Calls `rand::random::<bool>()`, a random truth value from the thread's
/// generator. Nothing is promised of it.
#[verifier::external_body]
fn draw_lots() -> bool {
    rand::random::<bool>()
}

// ----------------------------------------------------------------------
// The tournament's state, requests and replies
// ----------------------------------------------------------------------

/// Why a tournament stops early.
pub enum CalcError {
    /// A reply that does not answer the last request, or a reply after the end.
    UnexpectedReply,
    /// The entrants of a round cannot be resolved.
    Entrants(ResolveError),
    /// A round robin round (its index) cannot be paired: its given order
    /// names entrants it does not have, or a schedule cannot be made for
    /// its number of entrants.
    Unpairable(usize),
    /// Goals or points would go beyond what a table holds.
    Overflow,
}

/// Why a tournament stops early, as values.
pub enum CalcFailure {
    UnexpectedReply,
    Entrants(ResolveFailure),
    Unpairable(usize),
    Overflow,
}

/// View of a reason to stop.
pub open spec fn error_view(e: CalcError) -> CalcFailure {
    match e {
        CalcError::UnexpectedReply => CalcFailure::UnexpectedReply,
        CalcError::Entrants(r) => CalcFailure::Entrants(failure_view(r)),
        CalcError::Unpairable(k) => CalcFailure::Unpairable(k),
        CalcError::Overflow => CalcFailure::Overflow,
    }
}

/// What the tournament asks of the caller.
pub enum Request {
    /// Simulate a match between teams with these ratings; answer `Reply::Played`.
    Simulate((u32, u32)),
    /// Simulate extra time between teams with these ratings; answer `Reply::Extra`.
    Extra((u32, u32)),
    /// Simulate a penalty shootout; answer `Reply::Penalties`.
    Penalties,
    /// Compute new ratings from these ratings and this score, with the
    /// weight of the format with this index; answer `Reply::Elo`.
    Elo((u32, u32), (u32, u32), usize),
    /// A pairing is settled; answer `Reply::Continue`.
    PairingOver,
    /// The round with this index is over; answer `Reply::Continue`.
    RoundOver(usize),
    /// The tournament is over; its results are in `finished`.
    Finished,
    /// The tournament stops early.
    Failed(CalcError),
}

/// What the caller answers.
pub enum Reply {
    /// Go on.
    Continue,
    /// The result of a simulated match.
    Played(MatchResult),
    /// The goals of simulated extra time.
    Extra((Vec<u32>, Vec<u32>)),
    /// The goals of a simulated penalty shootout.
    Penalties((Vec<u32>, Vec<u32>)),
    /// New ratings.
    Elo((u32, u32)),
}

/// A tournament in progress.
pub struct Tournament {
    /// The configuration; team ratings change as pairings are settled.
    pub config: Config,
    /// The results of the rounds played, in the order of the rounds.
    pub finished: Vec<RoundResult>,
    /// The round being played.
    pub current: Option<RoundResult>,
    /// Index of the pairing being played.
    pub pairing: usize,
    /// What the tournament waits for.
    pub wait: Wait,
    /// Ratings of the two teams of the pairing now.
    pub cur_elos: (u32, u32),
    /// Ratings of the two teams before the last match (extra time and
    /// shootouts are played, and rated, from these).
    pub last_elos: (u32, u32),
}

/// The round being played.
pub open spec fn cur_round(t: Tournament) -> RoundResult {
    t.current->Some_0
}

/// The pairing being played.
pub open spec fn cur_pairing(t: Tournament) -> PairingResult {
    cur_round(t).pairings@[t.pairing as int]
}

/// Index of the format of the round being played.
pub open spec fn cur_format_index(t: Tournament) -> usize {
    t.config.round@[t.finished@.len() as int].format
}

/// The format of the round being played.
pub open spec fn cur_format(t: Tournament) -> Format {
    t.config.format@[cur_format_index(t) as int]
}

/// A pair of counts as `u32`.
pub open spec fn u32_pair(p: (nat, nat)) -> (u32, u32) {
    (p.0 as u32, p.1 as u32)
}

/// Teams of finished rounds are teams of the configuration.
pub open spec fn finished_wf(f: Seq<RoundResult>, nteams: nat) -> bool {
    &&& forall|i: int, s: int| 0 <= i < f.len() && 0 <= s < f[i].stats@.len() ==> (#[trigger] f[i].stats@[s]).team < nteams
    &&& forall|i: int, k: int| 0 <= i < f.len() && 0 <= k < f[i].flags@.len() ==> (#[trigger] f[i].flags@[k]).1 < nteams
}

/// A pairing that needs a winner has one, and it is no draw.
pub open spec fn decided(p: PairingResult) -> bool {
    &&& p.winner is Some
    &&& p.needs_winner ==> p.winner != Some(MatchWinner::Draw)
}

/// Every pairing of the finished rounds is decided.
pub open spec fn all_decided(f: Seq<RoundResult>) -> bool {
    forall|i: int, j: int| 0 <= i < f.len() && 0 <= j < f[i].pairings@.len() ==> decided(#[trigger] f[i].pairings@[j])
}

/// What the pairing being played holds at each wait.
pub open spec fn phase_wf(w: Wait, p: PairingResult) -> bool {
    let ms = p.match_results@;
    match w {
        Wait::Planned(m) => m < ms.len(),
        Wait::PlannedElo(m) => m < ms.len() && ms[m as int].result is Some,
        Wait::Replay | Wait::Repeat => p.winner is Some,
        Wait::Extra(_) | Wait::ExtraElo(_) | Wait::ReplayElo | Wait::Penalties | Wait::PenaltiesElo | Wait::RepeatElo => {
            &&& ms.len() > 0
            &&& ms.last().result is Some
            &&& p.winner is Some
        },
        Wait::PairingOver => decided(p),
        _ => true,
    }
}

/// The round being played is consistent: its pairings are between teams
/// with lines in its table, the pairings before the current one are
/// decided and the later ones are not played yet, its table has no
/// head-to-head results and it has set no flags yet.
pub open spec fn playing_core(t: Tournament) -> bool {
    let c = cur_round(t);
    let ps = c.pairings@;
    &&& t.current is Some
    &&& t.finished@.len() < t.config.round@.len()
    &&& t.pairing < ps.len()
    &&& c.flags@.len() == 0
    &&& no_head_to_head(c.stats@)
    &&& forall|s: int| 0 <= s < c.stats@.len() ==> (#[trigger] c.stats@[s]).team < t.config.team@.len()
    &&& forall|j: int| 0 <= j < ps.len() ==> {
        &&& (#[trigger] ps[j]).teams.0 < t.config.team@.len()
        &&& ps[j].teams.1 < t.config.team@.len()
        &&& has_line(c.stats@, ps[j].teams.0)
        &&& has_line(c.stats@, ps[j].teams.1)
        &&& fits_u32_pair(goals_sum(ps[j].match_results@))
    }
    &&& forall|j: int| 0 <= j < t.pairing ==> decided(#[trigger] ps[j])
    &&& forall|j: int| t.pairing < j < ps.len() ==> (#[trigger] ps[j]).match_results@.len() == 1
        && ps[j].match_results@[0].result is None
}

/// The round being played is consistent, and so is the pairing being
/// played with what the tournament waits for.
pub open spec fn playing_wf(t: Tournament) -> bool {
    &&& playing_core(t)
    &&& phase_wf(t.wait, cur_pairing(t))
}

/// The configuration is checked, and the finished rounds are consistent
/// with it and decided.
pub open spec fn base_wf(t: Tournament) -> bool {
    &&& config_wf(&t.config)
    &&& t.finished@.len() <= t.config.round@.len()
    &&& finished_wf(t.finished@, t.config.team@.len())
    &&& all_decided(t.finished@)
}

impl Tournament {
    /// The tournament's state is consistent.
    pub open spec fn wf(&self) -> bool {
        &&& base_wf(*self)
        &&& (self.wait == Wait::RoundStart || self.wait == Wait::Over) ==> self.current is None
        &&& (self.wait != Wait::RoundStart && self.wait != Wait::Over) ==> playing_wf(*self)
    }
}

/// The request that a tournament waiting at `t.wait` has made.
pub open spec fn request_for(t: Tournament) -> Request {
    let p = cur_pairing(t);
    match t.wait {
        Wait::Planned(_) | Wait::Replay | Wait::Repeat => Request::Simulate(t.cur_elos),
        Wait::Extra(_) => Request::Extra(t.last_elos),
        Wait::Penalties => Request::Penalties,
        Wait::PlannedElo(m) => Request::Elo(
            t.last_elos,
            u32_pair(p.match_results@[m as int].result->Some_0.spec_after_extra()),
            cur_format_index(t),
        ),
        Wait::ExtraElo(_) | Wait::ReplayElo | Wait::PenaltiesElo | Wait::RepeatElo => Request::Elo(
            t.last_elos,
            u32_pair(p.spec_last_result().spec_after_extra()),
            cur_format_index(t),
        ),
        Wait::PairingOver => Request::PairingOver,
        Wait::RoundStart => Request::RoundOver((t.finished@.len() - 1) as usize),
        Wait::Over => Request::Finished,
    }
}

/// The tournament stops with failure `f`: no round is being played and no
/// result is added.
pub open spec fn halted(o: Tournament, n: Tournament, req: Request, f: CalcFailure) -> bool {
    &&& n.finished == o.finished
    &&& n.current is None
    &&& n.wait == Wait::Over
    &&& req matches Request::Failed(e) && error_view(e) == f
}

/// Only the pairing being played changed.
pub open spec fn pairing_changed(o: Tournament, n: Tournament) -> bool {
    let c = cur_round(o);
    let d = cur_round(n);
    &&& n.config == o.config
    &&& n.finished == o.finished
    &&& n.pairing == o.pairing
    &&& n.current is Some
    &&& d.id == c.id
    &&& d.name == c.name
    &&& d.mode == c.mode
    &&& d.stats == c.stats
    &&& d.flags == c.flags
    &&& d.pairings@.len() == c.pairings@.len()
    &&& forall|j: int| 0 <= j < c.pairings@.len() && j != o.pairing ==> d.pairings@[j] == c.pairings@[j]
    &&& cur_pairing(n).teams == cur_pairing(o).teams
    &&& cur_pairing(n).needs_winner == cur_pairing(o).needs_winner
}

/// The settling of the pairing from `l` (see [`settle`]) is what `n` and
/// `req` show: the outcome, and the next wait with its request, or the
/// pairing settled (by lot, if still drawn).
pub open spec fn settles(n: Tournament, req: Request, l: Label, w: MatchWinner, away: MatchWinner, needs: bool, rb: Seq<RankBy>) -> bool {
    let (nx, w2) = settle(l, w, away, needs, rb);
    let q = cur_pairing(n);
    match nx {
        Next::Await(wt) => q.winner == Some(w2) && n.wait == wt && req == request_for(n),
        Next::Lots => (q.winner == Some(MatchWinner::WinTeam1) || q.winner == Some(MatchWinner::WinTeam2))
            && n.wait == Wait::PairingOver && req == Request::PairingOver,
        Next::Decided => q.winner == Some(w2) && n.wait == Wait::PairingOver && req == Request::PairingOver,
    }
}

/// Counts of a pair of goal lists.
pub open spec fn goal_counts(g: (Vec<u32>, Vec<u32>)) -> (nat, nat) {
    (g.0@.len(), g.1@.len())
}

/// The final score of `r` once extra time `g` replaces its extra time.
pub open spec fn with_extra_total(r: MatchResult, g: (Vec<u32>, Vec<u32>)) -> (nat, nat) {
    add_counts(add_counts(r.spec_after_second(), goal_counts(g)), opt_counts(r.penalties()))
}

/// The final score of `r` once shootout `g` replaces its shootout.
pub open spec fn with_penalties_total(r: MatchResult, g: (Vec<u32>, Vec<u32>)) -> (nat, nat) {
    add_counts(r.spec_after_extra(), goal_counts(g))
}

/// `r2` is `r` with extra time `g`.
pub open spec fn extra_added(r: MatchResult, r2: MatchResult, g: (Vec<u32>, Vec<u32>)) -> bool {
    &&& r2.first_half() == r.first_half()
    &&& r2.second_half() == r.second_half()
    &&& r2.extra_time() == Some(goals_view(g))
    &&& r2.penalties() == r.penalties()
}

/// `r2` is `r` with shootout `g`.
pub open spec fn penalties_added(r: MatchResult, r2: MatchResult, g: (Vec<u32>, Vec<u32>)) -> bool {
    &&& r2.first_half() == r.first_half()
    &&& r2.second_half() == r.second_half()
    &&& r2.extra_time() == r.extra_time()
    &&& r2.penalties() == Some(goals_view(g))
}

/// The matches `ms2` are `ms` with the result of the last match changed
/// (to one that `rel` relates to the old one), at the same place.
pub open spec fn last_result_changed(ms: Seq<Match>, ms2: Seq<Match>, rel: spec_fn(MatchResult, MatchResult) -> bool) -> bool {
    &&& ms2.len() == ms.len()
    &&& ms2.drop_last() == ms.drop_last()
    &&& ms2.last().location == ms.last().location
    &&& ms2.last().result is Some
    &&& rel(ms.last().result->Some_0, ms2.last().result->Some_0)
}

// ----------------------------------------------------------------------
// Replies during a pairing
// ----------------------------------------------------------------------

/// Stops the tournament with `e`.
fn halt(t: &mut Tournament, e: CalcError) -> (req: Request)
    requires
        base_wf(*old(t)),
    ensures
        final(t).wf(),
        final(t).config == old(t).config,
        halted(*old(t), *final(t), req, error_view(e)),
{
    t.current = None;
    t.wait = Wait::Over;
    Request::Failed(e)
}

/// A planned match was played: its result is recorded and new ratings are
/// asked for.
pub open spec fn step_planned(o: Tournament, n: Tournament, req: Request, m: usize, r: MatchResult) -> bool {
    let p = cur_pairing(o);
    let ms = p.match_results@.update(m as int, Match { location: p.match_results@[m as int].location, result: Some(r) });
    if !fits_u32_pair(goals_sum(ms)) {
        n.config == o.config && halted(o, n, req, CalcFailure::Overflow)
    } else {
        &&& pairing_changed(o, n)
        &&& cur_pairing(n).match_results@ == ms
        &&& cur_pairing(n).winner == p.winner
        &&& n.cur_elos == o.cur_elos
        &&& n.last_elos == o.cur_elos
        &&& n.wait == Wait::PlannedElo(m)
        &&& req == request_for(n)
    }
}

proof fn lemma_replace_pairing(ps: Seq<PairingResult>, j: int, q: PairingResult)
    requires
        0 <= j < ps.len(),
    ensures
        ps.remove(j).insert(j, q) == ps.update(j, q),
{
    assert(ps.remove(j).insert(j, q) =~= ps.update(j, q));
}

fn on_planned(t: &mut Tournament, m: usize, r: MatchResult) -> (req: Request)
    requires
        old(t).wf(),
        old(t).wait == Wait::Planned(m),
    ensures
        final(t).wf(),
        step_planned(*old(t), *final(t), req, m, r),
{
    let ghost o = *t;
    let sc = r.total_after_extra();
    let mut c = t.current.take().unwrap();
    let j = t.pairing;
    let mut p = c.pairings.remove(j);
    proof {
        assert(p == cur_pairing(o));
    }
    let loc = p.match_results[m].location;
    p.match_results.set(m, Match { location: loc, result: Some(r) });
    match crate::result::checked_total_goals(&p.match_results) {
        None => {
            return halt(t, CalcError::Overflow);
        },
        Some(_) => {},
    }
    let ghost q = p;
    c.pairings.insert(j, p);
    t.current = Some(c);
    t.last_elos = t.cur_elos;
    t.wait = Wait::PlannedElo(m);
    proof {
        lemma_replace_pairing(cur_round(o).pairings@, j as int, q);
        assert(cur_pairing(*t) == q);
    }
    let f = t.config.round[t.finished.len()].format;
    Request::Elo(t.last_elos, sc, f)
}

/// The request that the tournament has made, at a wait within a pairing.
fn current_request(t: &Tournament) -> (req: Request)
    requires
        base_wf(*t),
        playing_wf(*t),
        t.wait != Wait::RoundStart,
        t.wait != Wait::Over,
    ensures
        req == request_for(*t),
{
    let c = t.current.as_ref().unwrap();
    let p = &c.pairings[t.pairing];
    let f = t.config.round[t.finished.len()].format;
    match t.wait {
        Wait::Planned(_) | Wait::Replay | Wait::Repeat => Request::Simulate(t.cur_elos),
        Wait::Extra(_) => Request::Extra(t.last_elos),
        Wait::Penalties => Request::Penalties,
        Wait::PlannedElo(m) => {
            let sc = p.match_results[m].result.as_ref().unwrap().total_after_extra();
            Request::Elo(t.last_elos, sc, f)
        },
        Wait::ExtraElo(_) | Wait::ReplayElo | Wait::PenaltiesElo | Wait::RepeatElo => {
            let sc = p.last_match_result().total_after_extra();
            Request::Elo(t.last_elos, sc, f)
        },
        _ => Request::PairingOver,
    }
}

/// Gives the pairing being played the outcome `w`.
fn set_winner(t: &mut Tournament, w: MatchWinner)
    requires
        base_wf(*old(t)),
        playing_core(*old(t)),
    ensures
        pairing_changed(*old(t), *final(t)),
        cur_pairing(*final(t)).match_results == cur_pairing(*old(t)).match_results,
        cur_pairing(*final(t)).winner == Some(w),
        final(t).wait == old(t).wait,
        final(t).cur_elos == old(t).cur_elos,
        final(t).last_elos == old(t).last_elos,
        playing_core(*final(t)),
{
    let ghost o = *t;
    let mut c = t.current.take().unwrap();
    let j = t.pairing;
    let mut p = c.pairings.remove(j);
    p.winner = Some(w);
    let ghost q = p;
    c.pairings.insert(j, p);
    t.current = Some(c);
    proof {
        lemma_replace_pairing(cur_round(o).pairings@, j as int, q);
        assert(cur_pairing(*t) == q);
    }
}

/// Settles the pairing being played from `l`, as far as decisions go, and
/// draws lots when it is still drawn at the end.
fn settle_current(t: &mut Tournament, l: Label, w: MatchWinner, away: MatchWinner) -> (req: Request)
    requires
        base_wf(*old(t)),
        playing_core(*old(t)),
        cur_pairing(*old(t)).match_results@.len() > 0,
        cur_pairing(*old(t)).match_results@.last().result is Some,
    ensures
        final(t).wf(),
        pairing_changed(*old(t), *final(t)),
        cur_pairing(*final(t)).match_results == cur_pairing(*old(t)).match_results,
        final(t).cur_elos == old(t).cur_elos,
        final(t).last_elos == old(t).last_elos,
        settles(*final(t), req, l, w, away, cur_pairing(*old(t)).needs_winner, cur_format(*old(t)).rank_by@),
{
    let fi = t.config.round[t.finished.len()].format;
    let needs = t.current.as_ref().unwrap().pairings[t.pairing].needs_winner;
    let (nx, w2) = settle_exec(l, w, away, needs, &t.config.format[fi].rank_by);
    match nx {
        Next::Await(wt) => {
            set_winner(t, w2);
            t.wait = wt;
            current_request(t)
        },
        Next::Lots => {
            let w3 = if draw_lots() {
                MatchWinner::WinTeam1
            } else {
                MatchWinner::WinTeam2
            };
            set_winner(t, w3);
            t.wait = Wait::PairingOver;
            Request::PairingOver
        },
        Next::Decided => {
            set_winner(t, w2);
            t.wait = Wait::PairingOver;
            Request::PairingOver
        },
    }
}

/// New ratings after a planned match: the next planned match is asked for,
/// or the pairing is settled.
pub open spec fn step_planned_elo(o: Tournament, n: Tournament, req: Request, m: usize, e: (u32, u32)) -> bool {
    let p = cur_pairing(o);
    let ms = p.match_results@;
    &&& pairing_changed(o, n)
    &&& cur_pairing(n).match_results == p.match_results
    &&& n.cur_elos == e
    &&& n.last_elos == o.last_elos
    &&& if m + 1 < ms.len() {
        cur_pairing(n).winner == p.winner && n.wait == Wait::Planned((m + 1) as usize) && req == request_for(n)
    } else {
        settles(n, req, Label::AfterPlanned, winner_of(goals_sum(ms)), winner_of(away_sum(ms)), p.needs_winner, cur_format(o).rank_by@)
    }
}

fn on_planned_elo(t: &mut Tournament, m: usize, e: (u32, u32)) -> (req: Request)
    requires
        old(t).wf(),
        old(t).wait == Wait::PlannedElo(m),
    ensures
        final(t).wf(),
        step_planned_elo(*old(t), *final(t), req, m, e),
{
    t.cur_elos = e;
    let n = t.current.as_ref().unwrap().pairings[t.pairing].match_results.len();
    if m + 1 < n {
        t.wait = Wait::Planned(m + 1);
        return Request::Simulate(t.cur_elos);
    }
    let p = &t.current.as_ref().unwrap().pairings[t.pairing];
    let w = get_winner(p.total_goals());
    let away = get_winner(p.away_goals());
    settle_current(t, Label::AfterPlanned, w, away)
}

/// The score of the pairing being played once period `g` (extra time, or
/// else a shootout) replaces that of its last match.
pub open spec fn total_with(p: PairingResult, g: (Vec<u32>, Vec<u32>), extra: bool) -> (nat, nat) {
    let ms = p.match_results@;
    let r = ms.last().result->Some_0;
    add_counts(goals_sum(ms.drop_last()), if extra { with_extra_total(r, g) } else { with_penalties_total(r, g) })
}

/// `r2` is `r` with period `g` (extra time, or else a shootout).
pub open spec fn period_added(r: MatchResult, r2: MatchResult, g: (Vec<u32>, Vec<u32>), extra: bool) -> bool {
    if extra {
        extra_added(r, r2, g)
    } else {
        penalties_added(r, r2, g)
    }
}

proof fn lemma_goals_push(ms: Seq<Match>, x: Match)
    ensures
        goals_sum(ms.push(x)) == add_counts(goals_sum(ms), crate::result::match_goals(x)),
{
    assert(ms.push(x).drop_last() =~= ms);
}

/// Adds period `g` (extra time, or else a shootout) to the last match of
/// the pairing being played, if the score then fits; gives the score.
fn add_period(t: &mut Tournament, g: (Vec<u32>, Vec<u32>), extra: bool) -> (res: Option<(u32, u32)>)
    requires
        base_wf(*old(t)),
        playing_core(*old(t)),
        cur_pairing(*old(t)).match_results@.len() > 0,
        cur_pairing(*old(t)).match_results@.last().result is Some,
    ensures
        base_wf(*final(t)),
        final(t).config == old(t).config,
        final(t).finished == old(t).finished,
        res is Some <==> fits_u32_pair(total_with(cur_pairing(*old(t)), g, extra)),
        res matches Some(sc) ==> {
            let q = cur_pairing(*final(t));
            &&& pairing_changed(*old(t), *final(t))
            &&& playing_core(*final(t))
            &&& last_result_changed(
                cur_pairing(*old(t)).match_results@,
                q.match_results@,
                |a: MatchResult, b: MatchResult| period_added(a, b, g, extra),
            )
            &&& q.winner == cur_pairing(*old(t)).winner
            &&& goals_sum(q.match_results@) == total_with(cur_pairing(*old(t)), g, extra)
            &&& sc.0 == total_with(cur_pairing(*old(t)), g, extra).0
            &&& sc.1 == total_with(cur_pairing(*old(t)), g, extra).1
            &&& final(t).wait == old(t).wait
            &&& final(t).cur_elos == old(t).cur_elos
            &&& final(t).last_elos == old(t).last_elos
        },
{
    let ghost o = *t;
    let ghost p0 = cur_pairing(o);
    let mut c = t.current.take().unwrap();
    let j = t.pairing;
    let mut p = c.pairings.remove(j);
    proof {
        assert(p == p0);
    }
    let ghost ms = p.match_results@;
    let mt = p.match_results.pop().unwrap();
    proof {
        assert(p.match_results@ =~= ms.drop_last());
        lemma_goals_push(ms.drop_last(), mt);
        assert(ms.drop_last().push(mt) =~= ms);
    }
    let Match { location, result } = mt;
    let mut r = result.unwrap();
    let prefix = crate::result::checked_total_goals(&p.match_results).unwrap();
    let a2 = r.total_after_second();
    let ae = r.total_after_extra();
    let tt = r.total();
    if g.0.len() > u32::MAX as usize || g.1.len() > u32::MAX as usize {
        return None;
    }
    let n0 = g.0.len() as u64;
    let n1 = g.1.len() as u64;
    let new_total: (u64, u64) = if extra {
        (a2.0 as u64 + n0 + (tt.0 - ae.0) as u64, a2.1 as u64 + n1 + (tt.1 - ae.1) as u64)
    } else {
        (ae.0 as u64 + n0, ae.1 as u64 + n1)
    };
    if prefix.0 as u64 + new_total.0 > u32::MAX as u64 || prefix.1 as u64 + new_total.1 > u32::MAX as u64 {
        return None;
    }
    if extra {
        r.set_extra_time(g);
    } else {
        r.set_penalties(g);
    }
    let ghost r2 = r;
    let sc: (u32, u32) = ((prefix.0 as u64 + new_total.0) as u32, (prefix.1 as u64 + new_total.1) as u32);
    let nm = Match { location, result: Some(r) };
    proof {
        lemma_goals_push(ms.drop_last(), nm);
    }
    p.match_results.push(nm);
    proof {
        assert(p.match_results@.drop_last() =~= ms.drop_last());
    }
    let ghost q = p;
    c.pairings.insert(j, p);
    t.current = Some(c);
    proof {
        lemma_replace_pairing(cur_round(o).pairings@, j as int, q);
        assert(cur_pairing(*t) == q);
    }
    Some(sc)
}

/// Extra time was played: a pairing it decides asks for new ratings; a
/// drawn one goes on to be settled.
pub open spec fn step_extra(o: Tournament, n: Tournament, req: Request, s: Stage, g: (Vec<u32>, Vec<u32>)) -> bool {
    let p = cur_pairing(o);
    let total = total_with(p, g, true);
    let q = cur_pairing(n);
    let rb = cur_format(o).rank_by@;
    if !fits_u32_pair(total) {
        n.config == o.config && halted(o, n, req, CalcFailure::Overflow)
    } else {
        &&& pairing_changed(o, n)
        &&& last_result_changed(p.match_results@, q.match_results@, |a: MatchResult, b: MatchResult| extra_added(a, b, g))
        &&& n.cur_elos == o.cur_elos
        &&& n.last_elos == o.last_elos
        &&& if winner_of(total) != MatchWinner::Draw {
            q.winner == Some(winner_of(total)) && n.wait == Wait::ExtraElo(s) && req == request_for(n)
        } else {
            match s {
                Stage::First => settles(n, req, Label::ReplayOnce, MatchWinner::Draw, MatchWinner::Draw, p.needs_winner, rb),
                Stage::Second => settles(n, req, Label::Shootout, MatchWinner::Draw, MatchWinner::Draw, p.needs_winner, rb),
                Stage::Repeat => q.winner == Some(MatchWinner::Draw) && n.wait == Wait::Repeat && req == request_for(n),
            }
        }
    }
}

fn on_extra(t: &mut Tournament, s: Stage, g: (Vec<u32>, Vec<u32>)) -> (req: Request)
    requires
        old(t).wf(),
        old(t).wait == Wait::Extra(s),
    ensures
        final(t).wf(),
        step_extra(*old(t), *final(t), req, s, g),
{
    let ghost o = *t;
    let sc = match add_period(t, g, true) {
        None => {
            return halt(t, CalcError::Overflow);
        },
        Some(sc) => sc,
    };
    let ghost t1 = *t;
    let w = get_winner(sc);
    if w != MatchWinner::Draw {
        set_winner(t, w);
        t.wait = Wait::ExtraElo(s);
        return current_request(t);
    }
    match s {
        Stage::First => settle_current(t, Label::ReplayOnce, MatchWinner::Draw, MatchWinner::Draw),
        Stage::Second => settle_current(t, Label::Shootout, MatchWinner::Draw, MatchWinner::Draw),
        Stage::Repeat => {
            set_winner(t, MatchWinner::Draw);
            t.wait = Wait::Repeat;
            Request::Simulate(t.cur_elos)
        },
    }
}

/// A shootout was held: a pairing it decides asks for new ratings; a drawn
/// one goes on to be settled.
pub open spec fn step_shootout(o: Tournament, n: Tournament, req: Request, g: (Vec<u32>, Vec<u32>)) -> bool {
    let p = cur_pairing(o);
    let total = total_with(p, g, false);
    let q = cur_pairing(n);
    if !fits_u32_pair(total) {
        n.config == o.config && halted(o, n, req, CalcFailure::Overflow)
    } else {
        &&& pairing_changed(o, n)
        &&& last_result_changed(p.match_results@, q.match_results@, |a: MatchResult, b: MatchResult| penalties_added(a, b, g))
        &&& n.cur_elos == o.cur_elos
        &&& n.last_elos == o.last_elos
        &&& if winner_of(total) != MatchWinner::Draw {
            q.winner == Some(winner_of(total)) && n.wait == Wait::PenaltiesElo && req == request_for(n)
        } else {
            settles(n, req, Label::Repeat, MatchWinner::Draw, MatchWinner::Draw, p.needs_winner, cur_format(o).rank_by@)
        }
    }
}

fn on_shootout(t: &mut Tournament, g: (Vec<u32>, Vec<u32>)) -> (req: Request)
    requires
        old(t).wf(),
        old(t).wait == Wait::Penalties,
    ensures
        final(t).wf(),
        step_shootout(*old(t), *final(t), req, g),
{
    let sc = match add_period(t, g, false) {
        None => {
            return halt(t, CalcError::Overflow);
        },
        Some(sc) => sc,
    };
    let w = get_winner(sc);
    if w != MatchWinner::Draw {
        set_winner(t, w);
        t.wait = Wait::PenaltiesElo;
        return current_request(t);
    }
    settle_current(t, Label::Repeat, MatchWinner::Draw, MatchWinner::Draw)
}

/// New ratings after extra time, a replay or a shootout: the pairing goes
/// on to be settled from `l`.
pub open spec fn step_rated(o: Tournament, n: Tournament, req: Request, e: (u32, u32), l: Label) -> bool {
    let p = cur_pairing(o);
    &&& pairing_changed(o, n)
    &&& cur_pairing(n).match_results == p.match_results
    &&& n.cur_elos == e
    &&& n.last_elos == o.last_elos
    &&& settles(n, req, l, p.winner->Some_0, MatchWinner::Draw, p.needs_winner, cur_format(o).rank_by@)
}

fn on_rated(t: &mut Tournament, e: (u32, u32), l: Label) -> (req: Request)
    requires
        old(t).wf(),
        old(t).wait == Wait::ExtraElo(Stage::First) || old(t).wait == Wait::ExtraElo(Stage::Second)
            || old(t).wait == Wait::ExtraElo(Stage::Repeat) || old(t).wait == Wait::ReplayElo
            || old(t).wait == Wait::PenaltiesElo,
    ensures
        final(t).wf(),
        step_rated(*old(t), *final(t), req, e, l),
{
    t.cur_elos = e;
    let w = t.current.as_ref().unwrap().pairings[t.pairing].winner.unwrap();
    settle_current(t, l, w, MatchWinner::Draw)
}

/// New ratings after a replay of the replays that go on until one decides:
/// a decided pairing is settled; a drawn one gets extra time, if the
/// criteria say so, or is replayed again.
pub open spec fn step_repeat_elo(o: Tournament, n: Tournament, req: Request, e: (u32, u32)) -> bool {
    let p = cur_pairing(o);
    &&& pairing_changed(o, n)
    &&& cur_pairing(n).match_results == p.match_results
    &&& cur_pairing(n).winner == p.winner
    &&& n.cur_elos == e
    &&& n.last_elos == o.last_elos
    &&& if p.winner != Some(MatchWinner::Draw) {
        n.wait == Wait::PairingOver && req == Request::PairingOver
    } else if ranks_by(cur_format(o).rank_by@, RankBy::Extra) {
        n.wait == Wait::Extra(Stage::Repeat) && req == request_for(n)
    } else {
        n.wait == Wait::Repeat && req == request_for(n)
    }
}

fn on_repeat_elo(t: &mut Tournament, e: (u32, u32)) -> (req: Request)
    requires
        old(t).wf(),
        old(t).wait == Wait::RepeatElo,
    ensures
        final(t).wf(),
        step_repeat_elo(*old(t), *final(t), req, e),
{
    t.cur_elos = e;
    let w = t.current.as_ref().unwrap().pairings[t.pairing].winner.unwrap();
    if w != MatchWinner::Draw {
        t.wait = Wait::PairingOver;
        return Request::PairingOver;
    }
    let fi = t.config.round[t.finished.len()].format;
    if has_rank(&t.config.format[fi].rank_by, RankBy::Extra) {
        t.wait = Wait::Extra(Stage::Repeat);
        Request::Extra(t.last_elos)
    } else {
        t.wait = Wait::Repeat;
        Request::Simulate(t.cur_elos)
    }
}

/// A replay was played, on neutral ground: it is added to the pairing,
/// whose outcome is now that of all its matches, and new ratings are asked
/// for.
pub open spec fn step_replayed(o: Tournament, n: Tournament, req: Request, r: MatchResult, next: Wait) -> bool {
    let p = cur_pairing(o);
    let ms2 = p.match_results@.push(Match { location: MatchLocation::Neutral, result: Some(r) });
    if !fits_u32_pair(goals_sum(ms2)) {
        n.config == o.config && halted(o, n, req, CalcFailure::Overflow)
    } else {
        &&& pairing_changed(o, n)
        &&& cur_pairing(n).match_results@ == ms2
        &&& cur_pairing(n).winner == Some(winner_of(goals_sum(ms2)))
        &&& n.cur_elos == o.cur_elos
        &&& n.last_elos == o.cur_elos
        &&& n.wait == next
        &&& req == request_for(n)
    }
}

fn on_replayed(t: &mut Tournament, r: MatchResult, next: Wait) -> (req: Request)
    requires
        old(t).wf(),
        (old(t).wait == Wait::Replay && next == Wait::ReplayElo) || (old(t).wait == Wait::Repeat && next == Wait::RepeatElo),
    ensures
        final(t).wf(),
        step_replayed(*old(t), *final(t), req, r, next),
{
    let ghost o = *t;
    let sc = r.total_after_extra();
    let mut c = t.current.take().unwrap();
    let j = t.pairing;
    let mut p = c.pairings.remove(j);
    proof {
        assert(p == cur_pairing(o));
    }
    p.match_results.push(Match { location: MatchLocation::Neutral, result: Some(r) });
    let total = match crate::result::checked_total_goals(&p.match_results) {
        None => {
            return halt(t, CalcError::Overflow);
        },
        Some(g) => g,
    };
    p.winner = Some(get_winner(total));
    let ghost q = p;
    c.pairings.insert(j, p);
    t.current = Some(c);
    t.last_elos = t.cur_elos;
    t.wait = next;
    proof {
        lemma_replace_pairing(cur_round(o).pairings@, j as int, q);
        assert(cur_pairing(*t) == q);
    }
    let f = t.config.round[t.finished.len()].format;
    Request::Elo(t.last_elos, sc, f)
}

// ----------------------------------------------------------------------
// The end of a round
// ----------------------------------------------------------------------

/// Goals of both teams of a pairing.
pub open spec fn goals_all_f() -> spec_fn(PairingResult) -> nat {
    |p: PairingResult| p.spec_total_goals().0 + p.spec_total_goals().1
}

/// The most points one team can take from one pairing: those for a win, or
/// those of both sides of a draw (a team paired with itself).
pub open spec fn max_points(pfw: nat, pfd: nat) -> nat {
    if pfw >= 2 * pfd {
        pfw
    } else {
        2 * pfd
    }
}

/// The table has room for the pairings: with all goals of the round and
/// the most points a team can take from a pairing, per pairing, added to any line,
/// goals stay within `i32` and points within `u32`.
pub open spec fn room(stats: Seq<RoundStats>, ps: Seq<PairingResult>, pfw: nat, pfd: nat) -> bool {
    let g = sum_over(ps, goals_all_f());
    let pts = ps.len() * max_points(pfw, pfd);
    &&& g <= i32::MAX
    &&& pts <= u32::MAX
    &&& forall|i: int| 0 <= i < stats.len() ==> {
        &&& (#[trigger] stats[i]).points + pts <= u32::MAX
        &&& stats[i].goals_for + g <= i32::MAX
        &&& stats[i].goals_against + g <= i32::MAX
    }
}

/// A constant per pairing.
pub open spec fn const_f(c: nat) -> spec_fn(PairingResult) -> nat {
    |p: PairingResult| c
}

proof fn lemma_sum_over_le(ps: Seq<PairingResult>, f: spec_fn(PairingResult) -> nat, h: spec_fn(PairingResult) -> nat)
    requires
        forall|i: int| 0 <= i < ps.len() ==> f(#[trigger] ps[i]) <= h(ps[i]),
    ensures
        sum_over(ps, f) <= sum_over(ps, h),
    decreases ps.len(),
{
    if ps.len() > 0 {
        assert forall|i: int| 0 <= i < ps.drop_last().len() implies f(#[trigger] ps.drop_last()[i]) <= h(ps.drop_last()[i]) by {
            assert(ps.drop_last()[i] == ps[i]);
        }
        lemma_sum_over_le(ps.drop_last(), f, h);
        assert(f(ps.last()) <= h(ps.last()));
    }
}

proof fn lemma_sum_over_const(ps: Seq<PairingResult>, c: nat)
    ensures
        sum_over(ps, const_f(c)) == ps.len() * c,
    decreases ps.len(),
{
    if ps.len() > 0 {
        lemma_sum_over_const(ps.drop_last(), c);
        let n = ps.len();
        assert((n - 1) * c + c == n * c) by (nonlinear_arith);
    }
}

/// With room in the table, counting the pairings keeps the numbers of a
/// line without head-to-head results within bounds.
proof fn lemma_room_line(s: RoundStats, ps: Seq<PairingResult>, pfw: nat, pfd: nat, k: usize)
    ensures
        sum_over(ps, points_f(s.team, pfw, pfd)) <= ps.len() * max_points(pfw, pfd),
        sum_over(ps, vs_points_f(s.team, k, pfw, pfd)) <= ps.len() * max_points(pfw, pfd),
        sum_over(ps, gf_f(s.team)) <= sum_over(ps, goals_all_f()),
        sum_over(ps, ga_f(s.team)) <= sum_over(ps, goals_all_f()),
        sum_over(ps, vs_gf_f(s.team, k)) <= sum_over(ps, goals_all_f()),
        sum_over(ps, vs_ga_f(s.team, k)) <= sum_over(ps, goals_all_f()),
{
    let t = s.team;
    let m = max_points(pfw, pfd);
    assert forall|p: PairingResult| #[trigger] points_gain(t, p, pfw, pfd) <= m && vs_points_gain(t, k, p, pfw, pfd) <= m by {}
    lemma_sum_over_le(ps, points_f(t, pfw, pfd), const_f(m));
    lemma_sum_over_le(ps, vs_points_f(t, k, pfw, pfd), const_f(m));
    lemma_sum_over_const(ps, m);
    lemma_sum_over_le(ps, gf_f(t), goals_all_f());
    lemma_sum_over_le(ps, ga_f(t), goals_all_f());
    lemma_sum_over_le(ps, vs_gf_f(t, k), goals_all_f());
    lemma_sum_over_le(ps, vs_ga_f(t, k), goals_all_f());
}

/// Lines without head-to-head results.
pub open spec fn no_head_to_head(stats: Seq<RoundStats>) -> bool {
    forall|s: int| 0 <= s < stats.len() ==> {
        &&& (#[trigger] stats[s]).vs_points@ == Map::<usize, u32>::empty()
        &&& stats[s].vs_goals_for@ == Map::<usize, u32>::empty()
        &&& stats[s].vs_goals_against@ == Map::<usize, u32>::empty()
    }
}

proof fn lemma_room_fits(stats: Seq<RoundStats>, ps: Seq<PairingResult>, pfw: nat, pfd: nat)
    requires
        room(stats, ps, pfw, pfd),
        no_head_to_head(stats),
    ensures
        forall|i: int| 0 <= i < stats.len() && is_first_line(stats, i) ==> line_fits(#[trigger] stats[i], ps, pfw, pfd),
{
    assert forall|i: int| 0 <= i < stats.len() && is_first_line(stats, i) implies line_fits(#[trigger] stats[i], ps, pfw, pfd) by {
        let s = stats[i];
        lemma_room_line(s, ps, pfw, pfd, 0);
        assert forall|k: usize| #[trigger] vs_get(s.vs_points@, k) + sum_over(ps, vs_points_f(s.team, k, pfw, pfd)) <= u32::MAX by {
            lemma_room_line(s, ps, pfw, pfd, k);
        }
        assert forall|k: usize| #[trigger] vs_get(s.vs_goals_for@, k) + sum_over(ps, vs_gf_f(s.team, k)) <= u32::MAX by {
            lemma_room_line(s, ps, pfw, pfd, k);
        }
        assert forall|k: usize| #[trigger] vs_get(s.vs_goals_against@, k) + sum_over(ps, vs_ga_f(s.team, k)) <= u32::MAX by {
            lemma_room_line(s, ps, pfw, pfd, k);
        }
    }
}

proof fn lemma_updated_bounded(old: Seq<RoundStats>, new: Seq<RoundStats>, ps: Seq<PairingResult>, pfw: nat, pfd: nat)
    requires
        room(old, ps, pfw, pfd),
        no_head_to_head(old),
        stats_updated(old, new, ps, pfw, pfd),
    ensures
        all_bounded(new),
        forall|i: int| 0 <= i < new.len() ==> (#[trigger] new[i]).team == old[i].team,
{
    assert forall|i: int| 0 <= i < new.len() implies line_bounded(#[trigger] new[i]) && new[i].team == old[i].team by {
        let s = old[i];
        if is_first_line(old, i) {
            lemma_room_line(s, ps, pfw, pfd, 0);
            assert forall|k: usize| vs_get(new[i].vs_goals_for@, k) <= i32::MAX by {
                lemma_room_line(s, ps, pfw, pfd, k);
                assert(vs_get(new[i].vs_goals_for@, k) == vs_get(s.vs_goals_for@, k) + sum_over(ps, vs_gf_f(s.team, k)));
            }
            assert forall|k: usize| vs_get(new[i].vs_goals_against@, k) <= i32::MAX by {
                lemma_room_line(s, ps, pfw, pfd, k);
                assert(vs_get(new[i].vs_goals_against@, k) == vs_get(s.vs_goals_against@, k) + sum_over(ps, vs_ga_f(s.team, k)));
            }
        } else {
            assert(new[i] == old[i]);
        }
    }
}

proof fn lemma_winners_first_teams(s: Seq<RoundStats>, n: nat)
    requires
        forall|i: int| 0 <= i < s.len() ==> (#[trigger] s[i]).team < n,
    ensures
        forall|i: int| 0 <= i < winners_first(s).0.len() ==> (#[trigger] winners_first(s).0[i]).team < n,
        forall|i: int| 0 <= i < winners_first(s).1.len() ==> (#[trigger] winners_first(s).1[i]).team < n,
    decreases s.len(),
{
    if s.len() > 0 {
        assert forall|i: int| 0 <= i < s.drop_last().len() implies (#[trigger] s.drop_last()[i]).team < n by {
            assert(s.drop_last()[i] == s[i]);
        }
        lemma_winners_first_teams(s.drop_last(), n);
        assert(s.last().team < n);
    }
}

/// Ordering a table keeps the teams it holds.
proof fn lemma_ordered_teams(mode: Mode, old: Seq<RoundStats>, new: Seq<RoundStats>, rb: Seq<RankBy>, n: nat)
    requires
        ordered(mode, old, new, rb),
        forall|i: int| 0 <= i < old.len() ==> (#[trigger] old[i]).team < n,
    ensures
        forall|i: int| 0 <= i < new.len() ==> (#[trigger] new[i]).team < n,
{
    match mode {
        Mode::RoundRobin | Mode::RankingSort => {
            let totals = mode == Mode::RankingSort;
            let perm = choose|perm: Seq<int>| #[trigger] crate::ranking::is_permutation(old, new, perm)
                && (crate::ranking::total_preorder(old, rb, totals) ==> crate::ranking::is_sorted(new, rb, totals)
                && crate::ranking::is_stable(new, perm, rb, totals));
            assert forall|i: int| 0 <= i < new.len() implies (#[trigger] new[i]).team < n by {
                assert(new[i] == old[perm[i]]);
            }
        },
        Mode::Playoff => {
            lemma_winners_first_teams(old, n);
            let w = winners_first(old).0;
            let l = winners_first(old).1;
            assert forall|i: int| 0 <= i < new.len() implies (#[trigger] new[i]).team < n by {
                if i < w.len() {
                    assert(new[i] == w[i]);
                } else {
                    assert(new[i] == l[i - w.len()]);
                }
            }
        },
        Mode::Ranking => {},
    }
}

proof fn lemma_flag_set_by_team(stats: Seq<RoundStats>, f: Seq<char>, n: nat)
    requires
        forall|i: int| 0 <= i < stats.len() ==> (#[trigger] stats[i]).team < n,
        flag_set_by(stats, f) is Some,
    ensures
        flag_set_by(stats, f)->Some_0 < n,
    decreases stats.len(),
{
    if !(crate::result::earns_flag(stats.last(), stats.len() - 1) && stats.last().set_flag->Some_0.flag@ == f) {
        assert forall|i: int| 0 <= i < stats.drop_last().len() implies (#[trigger] stats.drop_last()[i]).team < n by {
            assert(stats.drop_last()[i] == stats[i]);
        }
        lemma_flag_set_by_team(stats.drop_last(), f, n);
    }
}

/// A round's first flags go to teams of its table.
proof fn lemma_flags_teams(flags: Seq<(String, usize)>, stats: Seq<RoundStats>, n: nat)
    requires
        flags_set(Seq::<(String, usize)>::empty(), flags, stats),
        forall|i: int| 0 <= i < stats.len() ==> (#[trigger] stats[i]).team < n,
    ensures
        forall|k: int| 0 <= k < flags.len() ==> (#[trigger] flags[k]).1 < n,
{
    assert forall|k: int| 0 <= k < flags.len() implies (#[trigger] flags[k]).1 < n by {
        let f = flags[k].0@;
        crate::result::lemma_lookup_unique(flags, f, k);
        assert(flag_lookup(flags, f) == flags_after(Seq::<(String, usize)>::empty(), stats, f));
        assert(flag_lookup(Seq::<(String, usize)>::empty(), f) is None);
        lemma_flag_set_by_team(stats, f, n);
    }
}

/// Whether the table has room for the pairings (see [`room`]).
fn has_room(stats: &Vec<RoundStats>, ps: &Vec<PairingResult>, pfw: u32, pfd: u32) -> (res: bool)
    requires
        forall|j: int| 0 <= j < ps@.len() ==> fits_u32_pair(goals_sum((#[trigger] ps@[j]).match_results@)),
    ensures
        res == room(stats@, ps@, pfw as nat, pfd as nat),
{
    let ghost f = goals_all_f();
    let mut g: u64 = 0;
    let mut j: usize = 0;
    while j < ps.len()
        invariant
            j <= ps@.len(),
            f == goals_all_f(),
            g == sum_over(ps@.take(j as int), f),
            g <= i32::MAX,
            forall|j: int| 0 <= j < ps@.len() ==> fits_u32_pair(goals_sum((#[trigger] ps@[j]).match_results@)),
        decreases ps@.len() - j,
    {
        proof {
            crate::result::lemma_sum_over_prefix(ps@, f, j as int);
            crate::result::lemma_sum_over_prefix_le(ps@, f, j as int + 1);
        }
        let tg = ps[j].total_goals();
        g = g + tg.0 as u64 + tg.1 as u64;
        if g > i32::MAX as u64 {
            return false;
        }
        j = j + 1;
    }
    proof {
        assert(ps@.take(ps@.len() as int) =~= ps@);
    }
    let len: u128 = ps.len() as u128;
    let per: u128 = if pfw as u128 >= 2 * pfd as u128 { pfw as u128 } else { 2 * pfd as u128 };
    assert(len * per <= 0xffff_ffff_ffff_ffffu128 * 0x1_ffff_fffeu128) by (nonlinear_arith)
        requires
            len <= 0xffff_ffff_ffff_ffffu128,
            per <= 0x1_ffff_fffeu128,
    ;
    let pts: u128 = len * per;
    if pts > u32::MAX as u128 {
        return false;
    }
    let mut i: usize = 0;
    while i < stats.len()
        invariant
            i <= stats@.len(),
            g == sum_over(ps@, goals_all_f()),
            g <= i32::MAX,
            pts == ps@.len() * max_points(pfw as nat, pfd as nat),
            pts <= u32::MAX,
            forall|k: int| 0 <= k < i ==> {
                &&& (#[trigger] stats@[k]).points + pts <= u32::MAX
                &&& stats@[k].goals_for + g <= i32::MAX
                &&& stats@[k].goals_against + g <= i32::MAX
            },
        decreases stats@.len() - i,
    {
        let s = &stats[i];
        if s.points as u128 + pts > u32::MAX as u128 || s.goals_for as u64 + g > i32::MAX as u64
            || s.goals_against as u64 + g > i32::MAX as u64 {
            return false;
        }
        i = i + 1;
    }
    true
}

/// A round whose pairings are all played can be closed: its pairings are
/// decided, between teams with lines in its table, with scores that fit;
/// its table holds teams of the configuration and no head-to-head results;
/// it has set no flags.
pub open spec fn closable(c: RoundResult, nteams: nat) -> bool {
    let ps = c.pairings@;
    &&& c.flags@.len() == 0
    &&& no_head_to_head(c.stats@)
    &&& forall|s: int| 0 <= s < c.stats@.len() ==> (#[trigger] c.stats@[s]).team < nteams
    &&& forall|j: int| 0 <= j < ps.len() ==> {
        &&& decided(#[trigger] ps[j])
        &&& has_line(c.stats@, ps[j].teams.0)
        &&& has_line(c.stats@, ps[j].teams.1)
        &&& fits_u32_pair(goals_sum(ps[j].match_results@))
    }
}

/// Round `c`, played, is closed with format `f` after the rounds `fin0`:
/// unless its table has no room for its pairings, its pairings are counted
/// into its table, the table is ordered, its flags are set, and the round
/// joins the finished ones.
pub open spec fn round_closed(c: RoundResult, f: Format, fin0: Seq<RoundResult>, n: Tournament, req: Request) -> bool {
    let pfw = f.points_for_win as nat;
    let pfd = f.points_for_draw as nat;
    let r = n.finished@.last();
    &&& n.current is None
    &&& if !room(c.stats@, c.pairings@, pfw, pfd) {
        &&& n.finished@ == fin0
        &&& n.wait == Wait::Over
        &&& req matches Request::Failed(e) && error_view(e) == CalcFailure::Overflow
    } else {
        &&& n.finished@.len() == fin0.len() + 1
        &&& n.finished@.drop_last() == fin0
        &&& r.id == c.id
        &&& r.name == c.name
        &&& r.mode == c.mode
        &&& r.pairings == c.pairings
        &&& exists|mid: Seq<RoundStats>| #[trigger] stats_updated(c.stats@, mid, c.pairings@, pfw, pfd)
            && ordered(c.mode, mid, r.stats@, f.rank_by@)
        &&& flags_set(c.flags@, r.flags@, r.stats@)
        &&& n.wait == Wait::RoundStart
        &&& req == Request::RoundOver(fin0.len() as usize)
    }
}

/// Closes a played round (see [`round_closed`]).
fn close_round(t: &mut Tournament, c: RoundResult) -> (req: Request)
    requires
        base_wf(*old(t)),
        old(t).current is None,
        old(t).finished@.len() < old(t).config.round@.len(),
        closable(c, old(t).config.team@.len()),
    ensures
        final(t).wf(),
        final(t).config == old(t).config,
        round_closed(c, cur_format(*old(t)), old(t).finished@, *final(t), req),
{
    let ghost o = *t;
    let ghost nteams = t.config.team@.len();
    let fi = t.config.round[t.finished.len()].format;
    let pfw = t.config.format[fi].points_for_win;
    let pfd = t.config.format[fi].points_for_draw;
    if !has_room(&c.stats, &c.pairings, pfw, pfd) {
        return halt(t, CalcError::Overflow);
    }
    let mut c = c;
    let ghost c0 = c;
    proof {
        lemma_room_fits(c.stats@, c.pairings@, pfw as nat, pfd as nat);
    }
    c.update_stats(pfw, pfd);
    let ghost mid = c.stats@;
    proof {
        lemma_updated_bounded(c0.stats@, mid, c0.pairings@, pfw as nat, pfd as nat);
    }
    proof {
        crate::ranking::lemma_bounded_for(c.stats@, t.config.format@[fi as int].rank_by@, false);
        crate::ranking::lemma_bounded_for(c.stats@, t.config.format@[fi as int].rank_by@, true);
    }
    c.sort_stats(&t.config.format[fi].rank_by);
    proof {
        lemma_ordered_teams(c0.mode, mid, c.stats@, t.config.format@[fi as int].rank_by@, nteams);
        assert(c.flags@ =~= Seq::<(String, usize)>::empty());
    }
    c.set_flags();
    proof {
        lemma_flags_teams(c.flags@, c.stats@, nteams);
    }
    let k = t.finished.len();
    let ghost fin0 = t.finished@;
    t.finished.push(c);
    t.wait = Wait::RoundStart;
    proof {
        assert(t.finished@.drop_last() =~= fin0);
        assert(t.finished@[k as int] == c);
        assert forall|i: int, s: int| 0 <= i < t.finished@.len() && 0 <= s < t.finished@[i].stats@.len() implies
            (#[trigger] t.finished@[i].stats@[s]).team < nteams by {
            if i < k {
                assert(t.finished@[i] == fin0[i]);
                assert(finished_wf(fin0, nteams));
                assert(fin0[i].stats@[s].team < nteams);
            } else {
                assert(t.finished@[i] == c);
                assert(c.stats@[s].team < nteams);
            }
        }
        assert forall|i: int, q: int| 0 <= i < t.finished@.len() && 0 <= q < t.finished@[i].flags@.len() implies
            (#[trigger] t.finished@[i].flags@[q]).1 < nteams by {
            if i < k {
                assert(t.finished@[i] == fin0[i]);
            }
        }
        assert forall|i: int, j: int| 0 <= i < t.finished@.len() && 0 <= j < t.finished@[i].pairings@.len() implies
            decided(#[trigger] t.finished@[i].pairings@[j]) by {
            if i < k {
                assert(t.finished@[i] == fin0[i]);
            }
        }
        assert(stats_updated(c0.stats@, mid, c0.pairings@, pfw as nat, pfd as nat));
    }
    Request::RoundOver(k)
}

// ----------------------------------------------------------------------
// The start of a round
// ----------------------------------------------------------------------

/// A resolved entrant: its team, and the points and goals it brings.
pub type Resolved = (usize, Option<(u32, u32, u32)>);

/// A new table line for a resolved entrant with flag setting `sf`.
pub open spec fn made_line(s: RoundStats, x: Resolved, sf: Option<SetFlag>) -> bool {
    &&& s.team == x.0
    &&& s.set_flag == sf
    &&& (s.points, s.goals_for, s.goals_against) == match x.1 {
        Some(p) => p,
        None => (0u32, 0u32, 0u32),
    }
    &&& s.vs_points@ == Map::<usize, u32>::empty()
    &&& s.vs_goals_for@ == Map::<usize, u32>::empty()
    &&& s.vs_goals_against@ == Map::<usize, u32>::empty()
}

/// The teams of resolved entrants.
pub open spec fn resolved_teams(v: Seq<Resolved>) -> Seq<usize> {
    v.map_values(|x: Resolved| x.0)
}

/// `c` is round `rd`, with format `f`, set up for the resolved entrants
/// `v`: its pairings as the format makes them, a fresh table line per
/// entrant, and no flags.
pub open spec fn round_made(c: RoundResult, rd: Round, f: Format, v: Seq<Resolved>) -> bool {
    &&& c.id == rd.id
    &&& c.name == rd.name
    &&& c.mode == f.mode
    &&& pairings_made(c.pairings@, f, resolved_teams(v))
    &&& c.stats@.len() == v.len()
    &&& forall|i: int| 0 <= i < v.len() ==> made_line(#[trigger] c.stats@[i], v[i], rd.entrant@[i].set_flag)
    &&& c.flags@.len() == 0
}

/// The pairing being played starts: the ratings are those of its teams
/// and its first match is asked for.
pub open spec fn pairing_started(n: Tournament) -> bool {
    let p = cur_pairing(n);
    &&& n.cur_elos == (n.config.team@[p.teams.0 as int].elo, n.config.team@[p.teams.1 as int].elo)
    &&& n.last_elos == n.cur_elos
    &&& n.wait == Wait::Planned(0)
}

/// The go-ahead for the next round: the tournament ends after the last
/// round; otherwise the round's entrants are resolved and paired, and its
/// first pairing starts (a round without pairings is closed at once).
pub open spec fn step_round_start(o: Tournament, n: Tournament, req: Request) -> bool {
    let k = o.finished@.len();
    let rd = o.config.round@[k as int];
    let f = o.config.format@[rd.format as int];
    &&& n.config == o.config
    &&& if k == o.config.round@.len() {
        n.finished == o.finished && n.current is None && n.wait == Wait::Over && req == Request::Finished
    } else {
        match resolve_all(rd.entrant@, o.finished@, f.copy) {
            Err(e) => halted(o, n, req, CalcFailure::Entrants(e)),
            Ok(v) => if !pairable(f, v.len()) {
                halted(o, n, req, CalcFailure::Unpairable(k as usize))
            } else {
                exists|c: RoundResult| #[trigger] round_made(c, rd, f, v) && if c.pairings@.len() > 0 {
                    &&& n.current == Some(c)
                    &&& n.finished == o.finished
                    &&& n.pairing == 0
                    &&& pairing_started(n)
                    &&& req == request_for(n)
                } else {
                    round_closed(c, f, o.finished@, n, req)
                }
            },
        }
    }
}

proof fn lemma_lookup_team(v: Seq<(String, usize)>, f: Seq<char>, n: nat)
    requires
        forall|k: int| 0 <= k < v.len() ==> (#[trigger] v[k]).1 < n,
        flag_lookup(v, f) is Some,
    ensures
        flag_lookup(v, f)->Some_0 < n,
    decreases v.len(),
{
    if v.last().0@ != f {
        assert forall|k: int| 0 <= k < v.drop_last().len() implies (#[trigger] v.drop_last()[k]).1 < n by {
            assert(v.drop_last()[k] == v[k]);
        }
        lemma_lookup_team(v.drop_last(), f, n);
    }
}

/// Resolved entrants are teams of the configuration.
proof fn lemma_resolved_teams(es: Seq<Entrant>, rf: Seq<RoundResult>, copy: bool, n: nat)
    requires
        forall|m: int| 0 <= m < es.len() ==> ((#[trigger] es[m]).t matches EntrantType::Team(i) ==> i < n),
        finished_wf(rf, n),
        resolve_all(es, rf, copy) is Ok,
    ensures
        resolve_all(es, rf, copy)->Ok_0.len() == es.len(),
        forall|i: int| 0 <= i < es.len() ==> (#[trigger] resolve_all(es, rf, copy)->Ok_0[i]).0 < n,
    decreases es.len(),
{
    if es.len() > 0 {
        assert forall|m: int| 0 <= m < es.drop_last().len() implies
            ((#[trigger] es.drop_last()[m]).t matches EntrantType::Team(i) ==> i < n) by {
            assert(es.drop_last()[m] == es[m]);
        }
        lemma_resolved_teams(es.drop_last(), rf, copy, n);
        let e = es.last();
        assert(es[es.len() - 1] == e);
        match e.t {
            EntrantType::Team(i) => {},
            EntrantType::Prev(r, rank) => {
                if r < rf.len() && rank >= 1 && rank <= rf[r as int].stats@.len() {
                    assert(rf[r as int].stats@[rank - 1].team < n);
                }
            },
            EntrantType::PrevFlag(r, checks) => {
                if r < rf.len() {
                    let fin = rf[r as int];
                    match crate::result::first_match(checks@, crate::result::flag_keys(fin.flags@)) {
                        Some(k) => {
                            if flag_lookup(fin.flags@, checks@[k].1@) is Some {
                                lemma_lookup_team(fin.flags@, checks@[k].1@, n);
                            }
                        },
                        None => {},
                    }
                }
            },
        }
    }
}

/// The pairings a format makes are fresh, between entrants' teams.
proof fn lemma_made_pairings(ps: Seq<PairingResult>, f: Format, teams: Seq<usize>)
    requires
        pairings_made(ps, f, teams),
    ensures
        forall|j: int| 0 <= j < ps.len() ==> {
            &&& (#[trigger] ps[j]).match_results@.len() == 1
            &&& ps[j].match_results@[0].result is None
            &&& ps[j].winner is None
            &&& exists|a: int| 0 <= a < teams.len() && ps[j].teams.0 == teams[a]
            &&& exists|b: int| 0 <= b < teams.len() && ps[j].teams.1 == teams[b]
        },
{
    if f.mode == Mode::RoundRobin {
        let o = choose|o: Seq<Seq<u32>>| crate::result::round_robin_order(o, f, teams.len()) && order_in_range(o, teams.len())
            && pairings_follow(ps, o, teams, crate::result::location_of(f.neutral));
        assert forall|j: int| 0 <= j < ps.len() implies {
            &&& (#[trigger] ps[j]).match_results@.len() == 1
            &&& ps[j].match_results@[0].result is None
            &&& ps[j].winner is None
            &&& exists|a: int| 0 <= a < teams.len() && ps[j].teams.0 == teams[a]
            &&& exists|b: int| 0 <= b < teams.len() && ps[j].teams.1 == teams[b]
        } by {
            assert(fresh_pairing(ps[j], teams[o[j][0] - 1], teams[o[j][1] - 1], crate::result::location_of(f.neutral), false));
            let a = o[j][0] - 1;
            let b = o[j][1] - 1;
            assert(0 <= a < teams.len() && ps[j].teams.0 == teams[a]);
            assert(0 <= b < teams.len() && ps[j].teams.1 == teams[b]);
        }
    } else if f.mode == Mode::Playoff {
        assert forall|j: int| 0 <= j < ps.len() implies {
            &&& (#[trigger] ps[j]).match_results@.len() == 1
            &&& ps[j].match_results@[0].result is None
            &&& ps[j].winner is None
            &&& exists|a: int| 0 <= a < teams.len() && ps[j].teams.0 == teams[a]
            &&& exists|b: int| 0 <= b < teams.len() && ps[j].teams.1 == teams[b]
        } by {
            assert(fresh_pairing(ps[j], teams[2 * j], teams[2 * j + 1], crate::result::location_of(f.neutral), true));
            assert(0 <= 2 * j < teams.len() && ps[j].teams.0 == teams[2 * j]);
            assert(0 <= 2 * j + 1 < teams.len() && ps[j].teams.1 == teams[2 * j + 1]);
        }
    }
}

/// The format can pair `n` entrants (see [`pairable`]).
fn is_pairable(f: &Format, n: usize) -> (res: bool)
    ensures
        res == pairable(*f, n as nat),
{
    if f.mode != Mode::RoundRobin {
        return true;
    }
    match &f.order {
        Some(given) => {
            let ghost o = games_view(given@);
            let mut i: usize = 0;
            while i < given.len()
                invariant
                    i <= given@.len(),
                    o == games_view(given@),
                    f.order == Some(*given),
                    f.mode == Mode::RoundRobin,
                    forall|k: int| 0 <= k < i ==> (#[trigger] o[k]).len() >= 2 && 1 <= o[k][0] <= n && 1 <= o[k][1] <= n,
                decreases given@.len() - i,
            {
                let g = &given[i];
                assert(o[i as int] == g@);
                if g.len() < 2 || g[0] < 1 || g[0] as usize > n || g[1] < 1 || g[1] as usize > n {
                    proof {
                        assert(!order_in_range(o, n as nat)) by {
                            assert(!((o[i as int]).len() >= 2 && 1 <= o[i as int][0] <= n && 1 <= o[i as int][1] <= n));
                        }
                        assert(f.order == Some(*given));
                        assert(!pairable(*f, n as nat));
                    }
                    return false;
                }
                i = i + 1;
            }
            true
        },
        None => {
            if n < 3 || n >= u32::MAX as usize {
                return false;
            }
            let m: u128 = n as u128 + 2;
            let l: u128 = f.legs as u128 + 1;
            assert(m * m <= 0x1_0000_0001u128 * 0x1_0000_0001u128) by (nonlinear_arith)
                requires
                    m <= 0x1_0000_0001u128,
            ;
            assert(m * m * l <= 0x1_0000_0001u128 * 0x1_0000_0001u128 * 0x1_0000_0000u128) by (nonlinear_arith)
                requires
                    m * m <= 0x1_0000_0001u128 * 0x1_0000_0001u128,
                    l <= 0x1_0000_0000u128,
            ;
            m * m * l <= usize::MAX as u128
        },
    }
}

/// Starts the pairing at `t.pairing`: the ratings of its teams, and its
/// first match.
fn start_pairing(t: &mut Tournament) -> (req: Request)
    requires
        base_wf(*old(t)),
        playing_core(*old(t)),
        cur_pairing(*old(t)).match_results@.len() == 1,
    ensures
        final(t).wf(),
        final(t).config == old(t).config,
        final(t).finished == old(t).finished,
        final(t).current == old(t).current,
        final(t).pairing == old(t).pairing,
        pairing_started(*final(t)),
        req == request_for(*final(t)),
{
    let p = &t.current.as_ref().unwrap().pairings[t.pairing];
    let e = (t.config.team[p.teams.0].elo, t.config.team[p.teams.1].elo);
    t.cur_elos = e;
    t.last_elos = e;
    t.wait = Wait::Planned(0);
    Request::Simulate(e)
}

fn open_round(t: &mut Tournament) -> (req: Request)
    requires
        old(t).wf(),
        old(t).wait == Wait::RoundStart,
    ensures
        final(t).wf(),
        step_round_start(*old(t), *final(t), req),
{
    let ghost o = *t;
    let ghost nteams = t.config.team@.len();
    let k = t.finished.len();
    if k == t.config.round.len() {
        t.wait = Wait::Over;
        return Request::Finished;
    }
    let fi = t.config.round[k].format;
    let copy = t.config.format[fi].copy;
    let ghost rd = t.config.round@[k as int];
    let ghost f = t.config.format@[fi as int];
    let twf = match resolve_entrants(t.config.round[k].entrant.as_slice(), t.finished.as_slice(), copy) {
        Err(e) => {
            return halt(t, CalcError::Entrants(e));
        },
        Ok(v) => v,
    };
    let ghost v = twf_view(twf@);
    proof {
        assert(resolve_all(rd.entrant@, o.finished@, copy) == Ok::<Seq<Resolved>, ResolveFailure>(v));
        assert forall|m: int| 0 <= m < rd.entrant@.len() implies
            ((#[trigger] rd.entrant@[m]).t matches EntrantType::Team(i) ==> i < nteams) by {
            assert(rd == t.config.round@[k as int]);
        }
        lemma_resolved_teams(rd.entrant@, o.finished@, copy, nteams);
        assert(team_seq(twf@) =~= resolved_teams(v));
    }
    if !is_pairable(&t.config.format[fi], twf.len()) {
        return halt(t, CalcError::Unpairable(k));
    }
    let pairings = gen_pairings(&t.config.format[fi], twf.as_slice());
    let stats = gen_stats(twf.as_slice());
    let c = RoundResult {
        id: t.config.round[k].id.clone(),
        name: t.config.round[k].name.clone(),
        mode: t.config.format[fi].mode,
        pairings,
        stats,
        flags: Vec::new(),
    };
    proof {
        assert forall|i: int| 0 <= i < v.len() implies made_line(#[trigger] c.stats@[i], v[i], rd.entrant@[i].set_flag) by {
            assert(fresh_line(c.stats@[i], twf@[i]));
            assert(v[i] == (twf@[i].team, crate::result::prev_view(twf@[i].prev_stats)));
        }
        assert(round_made(c, rd, f, v));
        lemma_made_pairings(c.pairings@, f, resolved_teams(v));
        assert forall|s: int| 0 <= s < c.stats@.len() implies (#[trigger] c.stats@[s]).team < nteams by {
            assert(made_line(c.stats@[s], v[s], rd.entrant@[s].set_flag));
        }
        assert forall|j: int| 0 <= j < c.pairings@.len() implies {
            &&& (#[trigger] c.pairings@[j]).teams.0 < nteams
            &&& c.pairings@[j].teams.1 < nteams
            &&& has_line(c.stats@, c.pairings@[j].teams.0)
            &&& has_line(c.stats@, c.pairings@[j].teams.1)
            &&& fits_u32_pair(goals_sum(c.pairings@[j].match_results@))
        } by {
            let p = c.pairings@[j];
            let a = choose|a: int| 0 <= a < resolved_teams(v).len() && p.teams.0 == resolved_teams(v)[a];
            let b = choose|b: int| 0 <= b < resolved_teams(v).len() && p.teams.1 == resolved_teams(v)[b];
            assert(made_line(c.stats@[a], v[a], rd.entrant@[a].set_flag));
            assert(made_line(c.stats@[b], v[b], rd.entrant@[b].set_flag));
            assert(c.stats@[a].team == p.teams.0);
            assert(c.stats@[b].team == p.teams.1);
            assert(p.match_results@.drop_last().len() == 0);
            assert(goals_sum(p.match_results@.drop_last()) == (0nat, 0nat));
        }
    }
    if c.pairings.len() == 0 {
        proof {
            assert(c.flags@.len() == 0);
        }
        return close_round(t, c);
    }
    t.current = Some(c);
    t.pairing = 0;
    start_pairing(t)
}

// ----------------------------------------------------------------------
// The end of a pairing
// ----------------------------------------------------------------------

/// The teams with `team`'s rating set to `elo`.
pub open spec fn rated(teams: Seq<Team>, team: usize, elo: u32) -> Seq<Team> {
    teams.update(team as int, Team { id: teams[team as int].id, name: teams[team as int].name, elo })
}

/// The go-ahead after a settled pairing: its teams take their new ratings;
/// the next pairing starts, or the round is closed after its last one.
pub open spec fn step_pairing_over(o: Tournament, n: Tournament, req: Request) -> bool {
    let c = cur_round(o);
    let p = cur_pairing(o);
    &&& n.config.team@ == rated(rated(o.config.team@, p.teams.0, o.cur_elos.0), p.teams.1, o.cur_elos.1)
    &&& n.config.name == o.config.name
    &&& n.config.seed == o.config.seed
    &&& n.config.root == o.config.root
    &&& n.config.format == o.config.format
    &&& n.config.round == o.config.round
    &&& if o.pairing + 1 < c.pairings@.len() {
        &&& n.finished == o.finished
        &&& n.current == o.current
        &&& n.pairing == o.pairing + 1
        &&& pairing_started(n)
        &&& req == request_for(n)
    } else {
        round_closed(c, cur_format(o), o.finished@, n, req)
    }
}

/// Sets the rating of team `team`.
fn set_rating(t: &mut Tournament, team: usize, elo: u32)
    requires
        team < old(t).config.team@.len(),
    ensures
        final(t).config.team@ == rated(old(t).config.team@, team, elo),
        final(t).config.name == old(t).config.name,
        final(t).config.seed == old(t).config.seed,
        final(t).config.root == old(t).config.root,
        final(t).config.format == old(t).config.format,
        final(t).config.round == old(t).config.round,
        final(t).finished == old(t).finished,
        final(t).current == old(t).current,
        final(t).pairing == old(t).pairing,
        final(t).wait == old(t).wait,
        final(t).cur_elos == old(t).cur_elos,
        final(t).last_elos == old(t).last_elos,
{
    let mut tm = t.config.team.remove(team);
    tm.elo = elo;
    t.config.team.insert(team, tm);
    proof {
        assert(t.config.team@ =~= rated(old(t).config.team@, team, elo));
    }
}

fn on_pairing_over(t: &mut Tournament) -> (req: Request)
    requires
        old(t).wf(),
        old(t).wait == Wait::PairingOver,
    ensures
        final(t).wf(),
        step_pairing_over(*old(t), *final(t), req),
{
    let ghost o = *t;
    let teams = t.current.as_ref().unwrap().pairings[t.pairing].teams;
    let e = t.cur_elos;
    set_rating(t, teams.0, e.0);
    set_rating(t, teams.1, e.1);
    let n = t.current.as_ref().unwrap().pairings.len();
    if t.pairing + 1 < n {
        t.pairing = t.pairing + 1;
        return start_pairing(t);
    }
    let c = t.current.take().unwrap();
    proof {
        assert(c == cur_round(o));
        assert(playing_core(o));
        assert(phase_wf(o.wait, cur_pairing(o)));
        assert forall|j: int| 0 <= j < c.pairings@.len() implies {
            &&& decided(#[trigger] c.pairings@[j])
            &&& has_line(c.stats@, c.pairings@[j].teams.0)
            &&& has_line(c.stats@, c.pairings@[j].teams.1)
            &&& fits_u32_pair(goals_sum(c.pairings@[j].match_results@))
        } by {
            if j < o.pairing {
            } else {
                assert(j == o.pairing);
            }
        }
        assert(no_head_to_head(c.stats@));
    }
    close_round(t, c)
}

// ----------------------------------------------------------------------
// The tournament's steps
// ----------------------------------------------------------------------

/// The reply answers what the tournament waits for.
pub open spec fn expected(w: Wait, r: Reply) -> bool {
    match w {
        Wait::Planned(_) | Wait::Replay | Wait::Repeat => r is Played,
        Wait::Extra(_) => r is Extra,
        Wait::Penalties => r is Penalties,
        Wait::PlannedElo(_) | Wait::ExtraElo(_) | Wait::ReplayElo | Wait::PenaltiesElo | Wait::RepeatElo => r is Elo,
        Wait::PairingOver | Wait::RoundStart => r is Continue,
        Wait::Over => false,
    }
}

/// Where the settling of a pairing goes on from once new ratings follow
/// extra time of stage `s`.
pub open spec fn after_extra(s: Stage) -> Label {
    match s {
        Stage::First => Label::ReplayOnce,
        Stage::Second => Label::Shootout,
        Stage::Repeat => Label::Repeat,
    }
}

/// One step of a tournament: from `o`, with reply `reply`, to `n`, with
/// request `req`. A reply that does not answer the last request stops it.
pub open spec fn step(o: Tournament, reply: Reply, n: Tournament, req: Request) -> bool {
    if !expected(o.wait, reply) {
        n.config == o.config && halted(o, n, req, CalcFailure::UnexpectedReply)
    } else {
        match o.wait {
            Wait::Planned(m) => step_planned(o, n, req, m, reply->Played_0),
            Wait::PlannedElo(m) => step_planned_elo(o, n, req, m, reply->Elo_0),
            Wait::Extra(s) => step_extra(o, n, req, s, reply->Extra_0),
            Wait::ExtraElo(s) => step_rated(o, n, req, reply->Elo_0, after_extra(s)),
            Wait::Replay => step_replayed(o, n, req, reply->Played_0, Wait::ReplayElo),
            Wait::ReplayElo => step_rated(o, n, req, reply->Elo_0, Label::ExtraSecond),
            Wait::Penalties => step_shootout(o, n, req, reply->Penalties_0),
            Wait::PenaltiesElo => step_rated(o, n, req, reply->Elo_0, Label::Repeat),
            Wait::Repeat => step_replayed(o, n, req, reply->Played_0, Wait::RepeatElo),
            Wait::RepeatElo => step_repeat_elo(o, n, req, reply->Elo_0),
            Wait::PairingOver => step_pairing_over(o, n, req),
            Wait::RoundStart => step_round_start(o, n, req),
            Wait::Over => true,
        }
    }
}

impl Tournament {
    /// A tournament for a checked configuration, before its first round.
    /// Its first request comes with the reply `Reply::Continue`.
    pub fn new(config: Config) -> (t: Tournament)
        requires
            config_wf(&config),
        ensures
            t.wf(),
            t.config == config,
            t.finished@.len() == 0,
            t.current is None,
            t.wait == Wait::RoundStart,
    {
        Tournament {
            config,
            finished: Vec::new(),
            current: None,
            pairing: 0,
            wait: Wait::RoundStart,
            cur_elos: (0, 0),
            last_elos: (0, 0),
        }
    }
}

/// Runs the tournament one step: takes the caller's reply to the last
/// request (`Reply::Continue` at the start) and gives the next request
/// (see [`step`]). Rounds are played in the order of the configuration:
/// each round's entrants are resolved from the rounds before it, paired,
/// and every pairing is played and settled by the criteria of the format;
/// then the round's table is counted and ordered and its flags are set.
pub fn calc(t: &mut Tournament, reply: Reply) -> (req: Request)
    requires
        old(t).wf(),
    ensures
        final(t).wf(),
        step(*old(t), reply, *final(t), req),
{
    match t.wait {
        Wait::Planned(m) => match reply {
            Reply::Played(r) => on_planned(t, m, r),
            _ => halt(t, CalcError::UnexpectedReply),
        },
        Wait::PlannedElo(m) => match reply {
            Reply::Elo(e) => on_planned_elo(t, m, e),
            _ => halt(t, CalcError::UnexpectedReply),
        },
        Wait::Extra(s) => match reply {
            Reply::Extra(g) => on_extra(t, s, g),
            _ => halt(t, CalcError::UnexpectedReply),
        },
        Wait::ExtraElo(s) => match reply {
            Reply::Elo(e) => {
                let l = match s {
                    Stage::First => Label::ReplayOnce,
                    Stage::Second => Label::Shootout,
                    Stage::Repeat => Label::Repeat,
                };
                on_rated(t, e, l)
            },
            _ => halt(t, CalcError::UnexpectedReply),
        },
        Wait::Replay => match reply {
            Reply::Played(r) => on_replayed(t, r, Wait::ReplayElo),
            _ => halt(t, CalcError::UnexpectedReply),
        },
        Wait::ReplayElo => match reply {
            Reply::Elo(e) => on_rated(t, e, Label::ExtraSecond),
            _ => halt(t, CalcError::UnexpectedReply),
        },
        Wait::Penalties => match reply {
            Reply::Penalties(g) => on_shootout(t, g),
            _ => halt(t, CalcError::UnexpectedReply),
        },
        Wait::PenaltiesElo => match reply {
            Reply::Elo(e) => on_rated(t, e, Label::Repeat),
            _ => halt(t, CalcError::UnexpectedReply),
        },
        Wait::Repeat => match reply {
            Reply::Played(r) => on_replayed(t, r, Wait::RepeatElo),
            _ => halt(t, CalcError::UnexpectedReply),
        },
        Wait::RepeatElo => match reply {
            Reply::Elo(e) => on_repeat_elo(t, e),
            _ => halt(t, CalcError::UnexpectedReply),
        },
        Wait::PairingOver => match reply {
            Reply::Continue => on_pairing_over(t),
            _ => halt(t, CalcError::UnexpectedReply),
        },
        Wait::RoundStart => match reply {
            Reply::Continue => open_round(t),
            _ => halt(t, CalcError::UnexpectedReply),
        },
        Wait::Over => halt(t, CalcError::UnexpectedReply),
    }
}

/// Every pairing of a finished round has an outcome, and a pairing that
/// needs a winner (a playoff pairing) is never left drawn: the criteria of
/// its format, and a draw of lots as a last resort, decide it.
pub proof fn lemma_pairings_decided(t: Tournament, i: int, j: int)
    requires
        t.wf(),
        0 <= i < t.finished@.len(),
        0 <= j < t.finished@[i].pairings@.len(),
    ensures
        t.finished@[i].pairings@[j].winner is Some,
        t.finished@[i].pairings@[j].needs_winner ==> t.finished@[i].pairings@[j].winner != Some(MatchWinner::Draw),
{
    assert(decided(t.finished@[i].pairings@[j]));
}


/// A drawn pairing that needs a winner goes to a penalty shootout when the
/// criteria hold penalties and no earlier step can still decide it: from
/// the planned matches when away goals do not decide it and neither extra
/// time nor a replay is among the criteria, from a replay without extra
/// time, and from the shootout step, reached after extra time. Whether
/// extra time is among the criteria plays no part at the shootout step.
pub proof fn lemma_drawn_goes_to_penalties(l: Label, away: MatchWinner, rb: Seq<RankBy>)
    requires
        rb.contains(RankBy::Penalties),
        l != Label::Repeat,
        l == Label::AfterPlanned ==> away == MatchWinner::Draw || !rb.contains(RankBy::AwayGoals),
        l != Label::Shootout ==> !rb.contains(RankBy::Extra),
        l == Label::AfterPlanned || l == Label::ExtraFirst || l == Label::ReplayOnce ==> !rb.contains(RankBy::ReplayOnce),
    ensures
        settle(l, MatchWinner::Draw, away, true, rb) == (Next::Await(Wait::Penalties), MatchWinner::Draw),
{
}

/// A pairing decided before the shootout stays decided: from the shootout
/// step, an outcome that is not a draw is the result, whatever the
/// criteria.
pub proof fn lemma_decided_stays(l: Label, w: MatchWinner, away: MatchWinner, rb: Seq<RankBy>)
    requires
        w != MatchWinner::Draw,
        l != Label::AfterPlanned,
    ensures
        settle(l, w, away, true, rb) == (Next::Decided, w),
{
}


/// After the planned matches: a pairing that needs no winner, or has one,
/// is settled as it stands; a drawn one that needs a winner is decided by
/// away goals if the criteria hold them and the away goals differ, and
/// otherwise goes to the first of extra time, a replay, a penalty
/// shootout or replays until one decides that the criteria hold, and to
/// lots when they hold none.
pub proof fn lemma_after_planned(w: MatchWinner, away: MatchWinner, needs: bool, rb: Seq<RankBy>)
    ensures
        ({
            let res = settle(Label::AfterPlanned, w, away, needs, rb);
            let open_draw = needs && w == MatchWinner::Draw && (away == MatchWinner::Draw || !rb.contains(RankBy::AwayGoals));
            &&& !needs ==> res == (Next::Decided, w)
            &&& needs && w != MatchWinner::Draw ==> res == (Next::Decided, w)
            &&& needs && w == MatchWinner::Draw && rb.contains(RankBy::AwayGoals) && away != MatchWinner::Draw
                ==> res == (Next::Decided, away)
            &&& open_draw && rb.contains(RankBy::Extra) ==> res == (Next::Await(Wait::Extra(Stage::First)), MatchWinner::Draw)
            &&& open_draw && !rb.contains(RankBy::Extra) && rb.contains(RankBy::ReplayOnce) ==> res == (
                Next::Await(Wait::Replay),
                MatchWinner::Draw,
            )
            &&& open_draw && !rb.contains(RankBy::Extra) && !rb.contains(RankBy::ReplayOnce) && rb.contains(
                RankBy::Penalties,
            ) ==> res == (Next::Await(Wait::Penalties), MatchWinner::Draw)
            &&& open_draw && !rb.contains(RankBy::Extra) && !rb.contains(RankBy::ReplayOnce) && !rb.contains(
                RankBy::Penalties,
            ) && rb.contains(RankBy::ReplayAlways) ==> res == (Next::Await(Wait::Repeat), MatchWinner::Draw)
            &&& open_draw && !rb.contains(RankBy::Extra) && !rb.contains(RankBy::ReplayOnce) && !rb.contains(
                RankBy::Penalties,
            ) && !rb.contains(RankBy::ReplayAlways) ==> res == (Next::Lots, MatchWinner::Draw)
        }),
{
}

/// After a penalty shootout (or a replay until one decides) that left the
/// pairing drawn, replays follow if the criteria hold them, and lots
/// otherwise.
pub proof fn lemma_after_shootout(rb: Seq<RankBy>, away: MatchWinner)
    ensures
        rb.contains(RankBy::ReplayAlways) ==> settle(Label::Repeat, MatchWinner::Draw, away, true, rb) == (
            Next::Await(Wait::Repeat),
            MatchWinner::Draw,
        ),
        !rb.contains(RankBy::ReplayAlways) ==> settle(Label::Repeat, MatchWinner::Draw, away, true, rb) == (
            Next::Lots,
            MatchWinner::Draw,
        ),
{
}

} // verus!
