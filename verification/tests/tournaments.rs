use fuba::common::MatchWinner;
use fuba::config::{Cond, Config, Entrant, EntrantType, Format, Mode, RankBy, Round, SetFlag, Team};
use fuba::flagcheck::FlagCheck;
use fuba::result::ResolveError;
use fuba::sim::MatchResult;
use fuba::tournament::{CalcError, Reply, Request, Tournament, Wait};

fn team(id: &str, elo: u32) -> Team {
    Team { id: String::from(id), name: format!("Team {}", id.to_uppercase()), elo }
}

fn fmt(id: &str, mode: Mode, rank_by: Vec<RankBy>) -> Format {
    Format {
        id: String::from(id),
        mode,
        order: None,
        neutral: false,
        random: false,
        rank_by,
        copy: false,
        legs: 1,
        points_for_win: 3,
        points_for_draw: 1,
    }
}

fn entrant(t: EntrantType) -> Entrant {
    Entrant { t, set_flag: None }
}

fn round(id: &str, format: usize, entrant: Vec<Entrant>) -> Round {
    Round { id: String::from(id), name: format!("Round {}", id), format, entrant }
}

fn config(team: Vec<Team>, format: Vec<Format>, round: Vec<Round>) -> Config {
    let root = round.len() - 1;
    Config { name: String::from("test"), seed: None, root, team, format, round }
}

/// A match with `a` goals for the first team and `b` for the second, all in the first half.
fn score(a: u32, b: u32) -> MatchResult {
    MatchResult::new(((1..=a).collect(), (1..=b).collect()), (vec![], vec![]), None, None)
}

fn goals(a: u32, b: u32) -> (Vec<u32>, Vec<u32>) {
    ((1..=a).collect(), (1..=b).collect())
}

fn expect_simulate(r: &Request) -> (u32, u32) {
    match r {
        Request::Simulate(e) => *e,
        _ => panic!("expected a simulation request"),
    }
}

fn expect_elo(r: &Request) -> ((u32, u32), (u32, u32), usize) {
    match r {
        Request::Elo(e, s, f) => (*e, *s, *f),
        _ => panic!("expected a rating request"),
    }
}

/// Plays a pairing decided in its planned match: simulate, rate, settle.
fn play_plain(t: &mut Tournament, first: Request, a: u32, b: u32) -> Request {
    let e = expect_simulate(&first);
    let r = fuba::tournament::calc(t, Reply::Played(score(a, b)));
    let (e2, s, _) = expect_elo(&r);
    assert_eq!(e2, e);
    assert_eq!(s, (a, b));
    let r = fuba::tournament::calc(t, Reply::Elo((e.0 + 1, e.1 + 2)));
    assert!(matches!(r, Request::PairingOver));
    fuba::tournament::calc(t, Reply::Continue)
}

fn playoff(rank_by: Vec<RankBy>) -> Tournament {
    let c = config(
        vec![team("a", 1500), team("b", 1400)],
        vec![fmt("ko", Mode::Playoff, rank_by)],
        vec![round("final", 0, vec![entrant(EntrantType::Team(0)), entrant(EntrantType::Team(1))])],
    );
    Tournament::new(c)
}

#[test]
fn extra_time_decides() {
    let mut t = playoff(vec![RankBy::Extra, RankBy::Penalties]);
    let r = fuba::tournament::calc(&mut t, Reply::Continue);
    assert_eq!(expect_simulate(&r), (1500, 1400));
    let r = fuba::tournament::calc(&mut t, Reply::Played(score(1, 1)));
    assert_eq!(expect_elo(&r), ((1500, 1400), (1, 1), 0));
    let r = fuba::tournament::calc(&mut t, Reply::Elo((1495, 1405)));
    // a drawn playoff goes to extra time, played from the ratings before the match
    match r {
        Request::Extra(e) => assert_eq!(e, (1500, 1400)),
        _ => panic!("expected extra time"),
    }
    let r = fuba::tournament::calc(&mut t, Reply::Extra(goals(1, 0)));
    assert_eq!(expect_elo(&r), ((1500, 1400), (2, 1), 0));
    let r = fuba::tournament::calc(&mut t, Reply::Elo((1510, 1390)));
    assert!(matches!(r, Request::PairingOver));
    let r = fuba::tournament::calc(&mut t, Reply::Continue);
    assert!(matches!(r, Request::RoundOver(0)));
    let r = fuba::tournament::calc(&mut t, Reply::Continue);
    assert!(matches!(r, Request::Finished));
    assert_eq!(t.wait, Wait::Over);
    let fin = &t.finished[0];
    assert_eq!(fin.pairings[0].winner, Some(MatchWinner::WinTeam1));
    assert_eq!(fin.pairings[0].match_results[0].result.as_ref().unwrap().result_str(), "2-1e (1-1, 1-1)");
    // the winner leads the table
    assert_eq!(fin.stats[0].team, 0);
    assert_eq!(fin.stats[0].points, 3);
    assert_eq!(fin.stats[1].points, 0);
    assert_eq!(t.config.team[0].elo, 1510);
    assert_eq!(t.config.team[1].elo, 1390);
}

#[test]
fn drawn_extra_time_is_played_again_before_penalties() {
    let mut t = playoff(vec![RankBy::Extra, RankBy::Penalties]);
    let _ = fuba::tournament::calc(&mut t, Reply::Continue);
    let _ = fuba::tournament::calc(&mut t, Reply::Played(score(0, 0)));
    let r = fuba::tournament::calc(&mut t, Reply::Elo((1500, 1400)));
    assert!(matches!(r, Request::Extra(_)));
    // still drawn: without a replay, extra time is asked for again
    let r = fuba::tournament::calc(&mut t, Reply::Extra(goals(0, 0)));
    assert!(matches!(r, Request::Extra(_)));
    let r = fuba::tournament::calc(&mut t, Reply::Extra(goals(1, 1)));
    assert!(matches!(r, Request::Penalties));
    let r = fuba::tournament::calc(&mut t, Reply::Penalties(goals(3, 4)));
    assert_eq!(expect_elo(&r), ((1500, 1400), (1, 1), 0));
    let r = fuba::tournament::calc(&mut t, Reply::Elo((1490, 1410)));
    assert!(matches!(r, Request::PairingOver));
    let p = &t.current.as_ref().unwrap().pairings[0];
    assert_eq!(p.winner, Some(MatchWinner::WinTeam2));
    assert_eq!(p.match_results[0].result.as_ref().unwrap().result_str(), "4-5p (0-0, 0-0, 1-1)");
}

#[test]
fn away_goals_decide_before_extra_time() {
    let mut t = playoff(vec![RankBy::AwayGoals, RankBy::Extra]);
    let _ = fuba::tournament::calc(&mut t, Reply::Continue);
    let _ = fuba::tournament::calc(&mut t, Reply::Played(score(1, 1)));
    // the first team plays at home: the second team's goal counts away
    let r = fuba::tournament::calc(&mut t, Reply::Elo((1500, 1400)));
    assert!(matches!(r, Request::PairingOver));
    assert_eq!(t.current.as_ref().unwrap().pairings[0].winner, Some(MatchWinner::WinTeam2));
}

#[test]
fn replays_go_on_until_one_decides() {
    let mut t = playoff(vec![RankBy::ReplayAlways]);
    let _ = fuba::tournament::calc(&mut t, Reply::Continue);
    let _ = fuba::tournament::calc(&mut t, Reply::Played(score(0, 0)));
    let r = fuba::tournament::calc(&mut t, Reply::Elo((1501, 1399)));
    // replays start from the latest ratings
    assert_eq!(expect_simulate(&r), (1501, 1399));
    let r = fuba::tournament::calc(&mut t, Reply::Played(score(2, 2)));
    assert_eq!(expect_elo(&r), ((1501, 1399), (2, 2), 0));
    let r = fuba::tournament::calc(&mut t, Reply::Elo((1502, 1398)));
    assert_eq!(expect_simulate(&r), (1502, 1398));
    let r = fuba::tournament::calc(&mut t, Reply::Played(score(0, 1)));
    let _ = expect_elo(&r);
    let r = fuba::tournament::calc(&mut t, Reply::Elo((1490, 1410)));
    assert!(matches!(r, Request::PairingOver));
    let p = &t.current.as_ref().unwrap().pairings[0];
    assert_eq!(p.match_results.len(), 3);
    assert_eq!(p.total_goals(), (2, 3));
    assert_eq!(p.winner, Some(MatchWinner::WinTeam2));
}

#[test]
fn a_single_replay_then_extra_time() {
    let mut t = playoff(vec![RankBy::ReplayOnce, RankBy::Extra]);
    let _ = fuba::tournament::calc(&mut t, Reply::Continue);
    let _ = fuba::tournament::calc(&mut t, Reply::Played(score(1, 1)));
    // extra time comes first when the criteria hold it
    let r = fuba::tournament::calc(&mut t, Reply::Elo((1500, 1400)));
    assert!(matches!(r, Request::Extra(_)));
    let r = fuba::tournament::calc(&mut t, Reply::Extra(goals(0, 0)));
    assert!(matches!(r, Request::Simulate(_)));
    let r = fuba::tournament::calc(&mut t, Reply::Played(score(0, 0)));
    let _ = expect_elo(&r);
    let r = fuba::tournament::calc(&mut t, Reply::Elo((1500, 1400)));
    assert!(matches!(r, Request::Extra(_)));
    let r = fuba::tournament::calc(&mut t, Reply::Extra(goals(0, 1)));
    let (_, s, _) = expect_elo(&r);
    assert_eq!(s, (0, 1));
    let r = fuba::tournament::calc(&mut t, Reply::Elo((1495, 1405)));
    assert!(matches!(r, Request::PairingOver));
    assert_eq!(t.current.as_ref().unwrap().pairings[0].winner, Some(MatchWinner::WinTeam2));
}

#[test]
fn lots_decide_a_drawn_playoff() {
    for _ in 0..20 {
        let mut t = playoff(vec![]);
        let _ = fuba::tournament::calc(&mut t, Reply::Continue);
        let _ = fuba::tournament::calc(&mut t, Reply::Played(score(2, 2)));
        let r = fuba::tournament::calc(&mut t, Reply::Elo((1500, 1400)));
        assert!(matches!(r, Request::PairingOver));
        let w = t.current.as_ref().unwrap().pairings[0].winner;
        assert!(w == Some(MatchWinner::WinTeam1) || w == Some(MatchWinner::WinTeam2));
    }
}

fn group() -> Config {
    let mut rr = fmt("rr", Mode::RoundRobin, vec![RankBy::Points, RankBy::GoalDiff, RankBy::Goals]);
    rr.neutral = true;
    let mut e = vec![
        entrant(EntrantType::Team(0)),
        entrant(EntrantType::Team(1)),
        entrant(EntrantType::Team(2)),
    ];
    for x in e.iter_mut() {
        x.set_flag = Some(SetFlag { cond: Cond::RankMin, value: 1, flag: String::from("W") });
    }
    config(
        vec![team("a", 1500), team("b", 1500), team("c", 1500)],
        vec![rr, fmt("rank", Mode::Ranking, vec![])],
        vec![
            round("g", 0, e),
            round(
                "f",
                1,
                vec![
                    entrant(EntrantType::PrevFlag(0, vec![(FlagCheck::new("W").ok().unwrap(), String::from("W"))])),
                    entrant(EntrantType::Prev(0, 3)),
                ],
            ),
        ],
    )
}

#[test]
fn round_robin_table_and_flags() {
    let mut t = Tournament::new(group());
    // schedule for three teams: a-c, c-b, a-b
    let r = fuba::tournament::calc(&mut t, Reply::Continue);
    let r = play_plain(&mut t, r, 2, 0);
    let r = play_plain(&mut t, r, 1, 1);
    let r = play_plain(&mut t, r, 0, 1);
    assert!(matches!(r, Request::RoundOver(0)));
    let g = &t.finished[0];
    let teams: Vec<usize> = g.pairings.iter().map(|p| p.teams.0).collect();
    assert_eq!(teams, vec![0, 2, 0]);
    // b: 4 points, a: 3 points, c: 1 point
    let table: Vec<(usize, u32, u32, u32)> = g.stats.iter().map(|s| (s.team, s.points, s.goals_for, s.goals_against)).collect();
    assert_eq!(table, vec![(1, 4, 2, 1), (0, 3, 2, 1), (2, 1, 1, 3)]);
    assert_eq!(g.flags, vec![(String::from("W"), 1)]);
    // the ranking round takes the flag holder and the third, in that order
    let r = fuba::tournament::calc(&mut t, Reply::Continue);
    assert!(matches!(r, Request::RoundOver(1)));
    let f = &t.finished[1];
    assert_eq!(f.pairings.len(), 0);
    let order: Vec<usize> = f.stats.iter().map(|s| s.team).collect();
    assert_eq!(order, vec![1, 2]);
    let r = fuba::tournament::calc(&mut t, Reply::Continue);
    assert!(matches!(r, Request::Finished));
    // every team played twice and took new ratings
    assert_eq!(t.config.team[0].elo, 1502);
}

#[test]
fn unexpected_reply_stops() {
    let mut t = Tournament::new(group());
    let r = fuba::tournament::calc(&mut t, Reply::Elo((1, 2)));
    assert!(matches!(r, Request::Failed(CalcError::UnexpectedReply)));
    let r = fuba::tournament::calc(&mut t, Reply::Continue);
    assert!(matches!(r, Request::Failed(CalcError::UnexpectedReply)));
}

#[test]
fn missing_place_stops() {
    let c = config(
        vec![team("a", 1500), team("b", 1500), team("c", 1500)],
        vec![fmt("rank", Mode::Ranking, vec![])],
        vec![
            round("g", 0, vec![entrant(EntrantType::Team(0)), entrant(EntrantType::Team(1))]),
            round("f", 0, vec![entrant(EntrantType::Prev(0, 5))]),
        ],
    );
    let mut t = Tournament::new(c);
    assert!(matches!(fuba::tournament::calc(&mut t, Reply::Continue), Request::RoundOver(0)));
    let r = fuba::tournament::calc(&mut t, Reply::Continue);
    assert!(matches!(r, Request::Failed(CalcError::Entrants(ResolveError::IndexTooLarge(5)))));
    assert_eq!(t.finished.len(), 1);
}

#[test]
fn unmatched_flag_checks_stop() {
    let c = config(
        vec![team("a", 1500), team("b", 1500)],
        vec![fmt("rank", Mode::Ranking, vec![])],
        vec![
            round("g", 0, vec![entrant(EntrantType::Team(0)), entrant(EntrantType::Team(1))]),
            round(
                "f",
                0,
                vec![entrant(EntrantType::PrevFlag(0, vec![(FlagCheck::new("X").ok().unwrap(), String::from("X"))]))],
            ),
        ],
    );
    let mut t = Tournament::new(c);
    let _ = fuba::tournament::calc(&mut t, Reply::Continue);
    match fuba::tournament::calc(&mut t, Reply::Continue) {
        Request::Failed(CalcError::Entrants(ResolveError::NoMatchingFlag(flags, n))) => {
            assert_eq!(flags.len(), 0);
            assert_eq!(n, 1);
        },
        _ => panic!("expected a failure"),
    }
}

#[test]
fn two_teams_cannot_have_a_schedule() {
    let c = config(
        vec![team("a", 1500), team("b", 1500)],
        vec![fmt("rr", Mode::RoundRobin, vec![RankBy::Points])],
        vec![round("g", 0, vec![entrant(EntrantType::Team(0)), entrant(EntrantType::Team(1))])],
    );
    let mut t = Tournament::new(c);
    assert!(matches!(fuba::tournament::calc(&mut t, Reply::Continue), Request::Failed(CalcError::Unpairable(0))));
    // a given order needs no schedule
    let mut c = config(
        vec![team("a", 1500), team("b", 1500)],
        vec![fmt("rr", Mode::RoundRobin, vec![RankBy::Points])],
        vec![round("g", 0, vec![entrant(EntrantType::Team(0)), entrant(EntrantType::Team(1))])],
    );
    c.format[0].order = Some(vec![vec![2, 1]]);
    let mut t = Tournament::new(c);
    assert_eq!(expect_simulate(&fuba::tournament::calc(&mut t, Reply::Continue)), (1500, 1500));
    assert_eq!(t.current.as_ref().unwrap().pairings[0].teams, (1, 0));
}

#[test]
fn points_that_do_not_fit_stop() {
    // two wins of 2^31 points each do not fit in a u32 count
    let mut c = group();
    c.format[0].points_for_win = 1 << 31;
    let mut t = Tournament::new(c);
    let r = fuba::tournament::calc(&mut t, Reply::Continue);
    let r = play_plain(&mut t, r, 2, 0);
    let r = play_plain(&mut t, r, 1, 1);
    let r = play_plain(&mut t, r, 1, 0);
    assert!(matches!(r, Request::Failed(CalcError::Overflow)));
}

#[test]
fn head_to_head_records_agree() {
    let mut t = Tournament::new(group());
    let r = fuba::tournament::calc(&mut t, Reply::Continue);
    let r = play_plain(&mut t, r, 2, 0);
    let r = play_plain(&mut t, r, 1, 1);
    let r = play_plain(&mut t, r, 0, 1);
    assert!(matches!(r, Request::RoundOver(0)));
    let g = &t.finished[0];
    for x in g.stats.iter() {
        for y in g.stats.iter() {
            let scored = *x.vs_goals_for.get(&y.team).unwrap_or(&0);
            let conceded = *y.vs_goals_against.get(&x.team).unwrap_or(&0);
            assert_eq!(scored, conceded);
        }
    }
    // a scored 2 against c, and c conceded 2 to a
    let a = g.stats.iter().find(|s| s.team == 0).unwrap();
    assert_eq!(a.vs_goals_for.get(&2), Some(&2));
}

#[test]
fn table_goals_balance() {
    let mut t = Tournament::new(group());
    let r = fuba::tournament::calc(&mut t, Reply::Continue);
    let r = play_plain(&mut t, r, 3, 2);
    let r = play_plain(&mut t, r, 0, 4);
    let r = play_plain(&mut t, r, 1, 1);
    assert!(matches!(r, Request::RoundOver(0)));
    let g = &t.finished[0];
    let scored: u32 = g.stats.iter().map(|s| s.goals_for).sum();
    let conceded: u32 = g.stats.iter().map(|s| s.goals_against).sum();
    assert_eq!(scored, 11);
    assert_eq!(conceded, 11);
}

#[test]
fn table_points_are_those_of_the_outcomes() {
    let mut t = Tournament::new(group());
    let r = fuba::tournament::calc(&mut t, Reply::Continue);
    let r = play_plain(&mut t, r, 2, 0);
    let r = play_plain(&mut t, r, 1, 1);
    let r = play_plain(&mut t, r, 0, 1);
    assert!(matches!(r, Request::RoundOver(0)));
    let g = &t.finished[0];
    let points: u32 = g.stats.iter().map(|s| s.points).sum();
    // two wins of three points and a draw of one point each
    assert_eq!(points, 3 + 3 + 2 * 1);
}

#[test]
fn a_large_win_still_fits() {
    let mut f = fmt("ko", Mode::Playoff, vec![]);
    f.points_for_win = 3_000_000_000;
    let c = config(
        vec![team("a", 1500), team("b", 1400)],
        vec![f],
        vec![round("final", 0, vec![entrant(EntrantType::Team(0)), entrant(EntrantType::Team(1))])],
    );
    let mut t = Tournament::new(c);
    let r = fuba::tournament::calc(&mut t, Reply::Continue);
    let r = play_plain(&mut t, r, 2, 1);
    assert!(matches!(r, Request::RoundOver(0)));
    assert_eq!(t.finished[0].stats[0].points, 3_000_000_000);
}
