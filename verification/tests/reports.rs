use fuba::config::{Mode, Team};
use fuba::result::{Match, MatchLocation, PairingResult, RoundResult, RoundStats};
use fuba::common::MatchWinner;
use fuba::sim::MatchResult;
use std::collections::HashMap;

fn team(name: &str) -> Team {
    Team { id: String::from(name), name: String::from(name), elo: 1500 }
}

fn line(team: usize, points: u32, gf: u32, ga: u32) -> RoundStats {
    RoundStats {
        team,
        set_flag: None,
        points,
        goals_for: gf,
        goals_against: ga,
        vs_points: HashMap::new(),
        vs_goals_for: HashMap::new(),
        vs_goals_against: HashMap::new(),
    }
}

#[test]
fn table_line_with_and_without_stats() {
    let teams = vec![team("Borussia"), team("FC")];
    let s = line(0, 7, 12, 3);
    assert_eq!(s.table_line_str(&teams, false), format!("{:32}", "Borussia"));
    assert_eq!(s.table_line_str(&teams, true), format!("{:32}  12-3     9   7", "Borussia"));
    let s = line(1, 0, 1, 10);
    assert_eq!(s.table_line_str(&teams, true), format!("{:32}   1-10   -9   0", "FC"));
    assert_eq!(s.goal_diff(), -9);
}

#[test]
fn long_names_are_cut_at_32_bytes() {
    let long = "A very long name of a football club that goes on";
    let teams = vec![team(long)];
    let s = line(0, 0, 0, 0);
    assert_eq!(s.table_line_str(&teams, false), String::from(&long[..32]));
    // a multibyte character that ends at byte 32 stays; the field is 32 characters wide
    let name = format!("{}é", "x".repeat(30));
    let teams = vec![team(&name)];
    assert_eq!(s.table_line_str(&teams, false), format!("{:32}", name));
    assert_eq!(s.table_line_str(&teams, false).chars().count(), 32);
}

#[test]
fn round_report() {
    let teams = vec![team("Alpha"), team("Beta")];
    let r = RoundResult {
        id: String::from("f"),
        name: String::from("Final"),
        mode: Mode::RoundRobin,
        pairings: vec![PairingResult {
            teams: (0, 1),
            match_results: vec![Match {
                location: MatchLocation::Home1,
                result: Some(MatchResult::new((vec![3], vec![]), (vec![], vec![]), None, None)),
            }],
            winner: Some(MatchWinner::WinTeam1),
            needs_winner: false,
        }],
        stats: vec![line(0, 3, 1, 0), line(1, 0, 0, 1)],
        flags: vec![],
    };
    let lines = r.report(&teams);
    assert_eq!(
        lines,
        vec![
            String::from("Round: Final"),
            format!("{:32} - {:32}   1-0 (1-0)", "Alpha", "Beta"),
            String::new(),
            format!(" 1 {:32}   1-0     1   3", "Alpha"),
            format!(" 2 {:32}   0-1    -1   0", "Beta"),
            String::new(),
        ]
    );
    assert_eq!(r.match_lines(&teams).len(), 1);
    assert_eq!(r.table_lines(&teams, false), vec![format!(" 1 {:32}", "Alpha"), format!(" 2 {:32}", "Beta")]);
}

#[test]
fn counts_beyond_i32_need_no_difference() {
    let teams = vec![team("Big"), team("Small")];
    let s = line(0, 3, 3_000_000_000, 1);
    // without stats no goal difference is taken
    assert_eq!(s.table_line_str(&teams, false), format!("{:32}", "Big"));
    // a playoff orders its table by points alone
    let mut r = RoundResult {
        id: String::from("ko"),
        name: String::from("Final"),
        mode: Mode::Playoff,
        pairings: vec![],
        stats: vec![line(1, 0, 1, 3_000_000_000), s],
        flags: vec![],
    };
    r.sort_stats(&vec![]);
    let order: Vec<usize> = r.stats.iter().map(|x| x.team).collect();
    assert_eq!(order, vec![0, 1]);
    // a round robin by points only takes no difference either
    r.mode = Mode::RoundRobin;
    r.sort_stats(&vec![fuba::config::RankBy::Points]);
    assert_eq!(r.stats[0].team, 0);
}
