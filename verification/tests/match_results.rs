use fuba::result::{get_winner, Match, MatchLocation, PairingResult};
use fuba::common::MatchWinner;
use fuba::sim::MatchResult;

fn gen_test_result() -> MatchResult {
    MatchResult::new((vec![10, 20], vec![30]), (vec![30], vec![10, 20]), None, None)
}

#[test]
fn matchresult_result_str() {
    let m = gen_test_result();
    assert_eq!(m.result_str(), String::from("3-3 (2-1)"));
}

#[test]
fn result_str_after_extra_time() {
    let m = MatchResult::new((vec![10], vec![]), (vec![], vec![60]), Some((vec![95], vec![])), None);
    assert_eq!(m.result_str(), String::from("2-1e (1-0, 1-1)"));
}

#[test]
fn result_str_after_penalties() {
    let m = MatchResult::new((vec![], vec![]), (vec![70], vec![80]), None, Some((vec![1, 2, 3, 4], vec![1, 2, 3])));
    assert_eq!(m.result_str(), String::from("5-4p (0-0, 1-1)"));
}

#[test]
fn result_str_after_extra_time_and_penalties() {
    let m = MatchResult::new(
        (vec![5], vec![]),
        (vec![], vec![50]),
        Some((vec![100], vec![110])),
        Some((vec![1], vec![])),
    );
    assert_eq!(m.result_str(), String::from("3-2p (1-0, 1-1, 2-2)"));
}

#[test]
fn totals_grow_period_by_period() {
    let m = MatchResult::new(
        (vec![5, 6], vec![]),
        (vec![], vec![50]),
        Some((vec![100], vec![110])),
        Some((vec![1, 2], vec![3])),
    );
    assert_eq!(m.total_after_first(), (2, 0));
    assert_eq!(m.total_after_second(), (2, 1));
    assert_eq!(m.total_after_extra(), (3, 2));
    assert_eq!(m.total(), (5, 3));
}

#[test]
fn set_periods_replace_goals() {
    let mut m = MatchResult::new((vec![5], vec![]), (vec![], vec![50]), None, None);
    m.set_extra_time((vec![91], vec![]));
    assert_eq!(m.total(), (2, 1));
    m.set_extra_time((vec![], vec![]));
    assert_eq!(m.total(), (1, 1));
    m.set_penalties((vec![1], vec![2, 3]));
    assert_eq!(m.total(), (2, 3));
    assert_eq!(m.result_str(), String::from("2-3p (1-0, 1-1, 1-1)"));
}

#[test]
fn winner_of_scores() {
    assert_eq!(get_winner((2, 1)), MatchWinner::WinTeam1);
    assert_eq!(get_winner((0, 3)), MatchWinner::WinTeam2);
    assert_eq!(get_winner((4, 4)), MatchWinner::Draw);
}

#[test]
fn pairing_goals_over_legs() {
    let p = PairingResult {
        teams: (0, 1),
        match_results: vec![
            Match {
                location: MatchLocation::Home1,
                result: Some(MatchResult::new((vec![1], vec![]), (vec![2], vec![3]), None, None)),
            },
            Match {
                location: MatchLocation::Home2,
                result: Some(MatchResult::new((vec![], vec![4]), (vec![5], vec![]), None, None)),
            },
            Match { location: MatchLocation::Neutral, result: None },
        ],
        winner: None,
        needs_winner: true,
    };
    assert_eq!(p.total_goals(), (3, 2));
    // team 2 scored once away in the first match, team 1 once away in the second
    assert_eq!(p.away_goals(), (1, 1));
    let r = p.match_results[1].result.as_ref().unwrap();
    assert_eq!(r.total(), (1, 1));
}

fn fresh_line(team: usize) -> fuba::result::RoundStats {
    fuba::result::RoundStats {
        team,
        set_flag: None,
        points: 0,
        goals_for: 0,
        goals_against: 0,
        vs_points: std::collections::HashMap::new(),
        vs_goals_for: std::collections::HashMap::new(),
        vs_goals_against: std::collections::HashMap::new(),
    }
}

#[test]
fn counting_a_loss_gives_the_loser_no_points_entry() {
    let p = PairingResult {
        teams: (0, 1),
        match_results: vec![Match {
            location: MatchLocation::Home1,
            result: Some(MatchResult::new((vec![5], vec![20, 70]), (vec![], vec![]), None, None)),
        }],
        winner: Some(MatchWinner::WinTeam2),
        needs_winner: false,
    };
    let mut r = fuba::result::RoundResult {
        id: String::from("g"),
        name: String::from("Group"),
        mode: fuba::config::Mode::RoundRobin,
        pairings: vec![p],
        stats: vec![fresh_line(0), fresh_line(1)],
        flags: vec![],
    };
    r.update_stats(3, 1);
    let a = &r.stats[0];
    let b = &r.stats[1];
    assert_eq!((a.points, a.goals_for, a.goals_against), (0, 1, 2));
    assert_eq!((b.points, b.goals_for, b.goals_against), (3, 2, 1));
    assert!(a.vs_points.is_empty());
    assert_eq!(b.vs_points.len(), 1);
    assert_eq!(b.vs_points.get(&0), Some(&3));
    assert_eq!(a.vs_goals_for.len(), 1);
    assert_eq!(a.vs_goals_for.get(&1), Some(&1));
    assert_eq!(a.vs_goals_against.get(&1), Some(&2));
    assert_eq!(b.vs_goals_for.get(&0), Some(&2));
    assert_eq!(b.vs_goals_against.len(), 1);
    assert_eq!(b.vs_goals_against.get(&0), Some(&1));
}
