use fuba::config::{Mode, Team};
use fuba::result::{RoundResult, RoundStats};
use fuba::tally::{ranked, run_summary, Tally};
use std::collections::HashMap;

fn s(x: &str) -> String {
    String::from(x)
}

fn names(v: &[&str]) -> Vec<String> {
    v.iter().map(|x| s(x)).collect()
}

fn count(v: &Vec<(String, u32)>, name: &str) -> u32 {
    v.iter().find(|e| e.0 == name).map(|e| e.1).unwrap_or(0)
}

#[test]
fn record_counts_winners_and_participants() {
    let mut t = Tally::new();
    assert!(t.record_round(&s("f"), &s("final"), &s("A"), &names(&["A", "B"])));
    assert!(t.record_round(&s("f"), &s("final"), &s("B"), &names(&["B", "A"])));
    assert!(t.record_round(&s("f"), &s("final"), &s("A"), &names(&["A", "C"])));
    assert!(t.record_round(&s("g"), &s("group"), &s("C"), &names(&["C", "A", "B", "C"])));
    assert_eq!(t.rounds.len(), 2);
    let f = &t.rounds[0];
    assert_eq!(f.id, "f");
    assert_eq!(f.name, "final");
    assert_eq!(count(&f.winner, "A"), 2);
    assert_eq!(count(&f.winner, "B"), 1);
    assert_eq!(count(&f.winner, "C"), 0);
    assert_eq!(count(&f.participant, "A"), 3);
    assert_eq!(count(&f.participant, "C"), 1);
    // a team listed twice is counted twice
    assert_eq!(count(&t.rounds[1].participant, "C"), 2);
}

#[test]
fn record_refuses_a_count_beyond_u32() {
    let mut t = Tally::new();
    assert!(t.record_round(&s("r"), &s("Round"), &s("A"), &names(&["A"])));
    t.rounds[0].winner[0].1 = u32::MAX;
    assert!(!t.record_round(&s("r"), &s("Round"), &s("A"), &names(&["A"])));
    assert_eq!(t.rounds[0].participant[0].1, 1);
    t.rounds[0].participant[0].1 = u32::MAX - 1;
    assert!(!t.record_round(&s("r"), &s("Round"), &s("B"), &names(&["A", "A"])));
    assert!(t.record_round(&s("r"), &s("Round"), &s("B"), &names(&["A"])));
    assert_eq!(t.rounds[0].participant[0].1, u32::MAX);
}

#[test]
fn ranked_by_count() {
    let v = vec![(s("a"), 3), (s("b"), 7), (s("c"), 3), (s("d"), 10)];
    let r = ranked(&v);
    let counts: Vec<u32> = r.iter().map(|e| e.1).collect();
    assert_eq!(counts, vec![10, 7, 3, 3]);
    assert_eq!(r[0].0, "d");
    assert_eq!(r[1].0, "b");
    let mut n: Vec<String> = r.iter().map(|e| e.0.clone()).collect();
    n.sort();
    assert_eq!(n, names(&["a", "b", "c", "d"]));
    assert_eq!(ranked(&vec![]).len(), 0);
}

fn line(team: usize) -> RoundStats {
    RoundStats {
        team,
        set_flag: None,
        points: 0,
        goals_for: 0,
        goals_against: 0,
        vs_points: HashMap::new(),
        vs_goals_for: HashMap::new(),
        vs_goals_against: HashMap::new(),
    }
}

#[test]
fn summary_of_a_run() {
    let teams = vec![
        Team { id: s("a"), name: s("Alpha"), elo: 1 },
        Team { id: s("b"), name: s("Beta"), elo: 1 },
    ];
    let r = RoundResult {
        id: s("f"),
        name: s("Final"),
        mode: Mode::Ranking,
        pairings: vec![],
        stats: vec![line(1), line(0)],
        flags: vec![],
    };
    let sum = run_summary(&vec![r], &teams);
    assert_eq!(sum.len(), 1);
    assert_eq!(sum[0].id, "f");
    assert_eq!(sum[0].name, "Final");
    assert_eq!(sum[0].winner, "Beta");
    assert_eq!(sum[0].participants, names(&["Beta", "Alpha"]));
}

#[test]
fn rounds_shown_are_those_asked_for() {
    let none: Vec<String> = vec![];
    let some = vec![String::from("final"), String::from("semi")];
    assert!(fuba::tally::round_shown(&none, &String::from("group")));
    assert!(fuba::tally::round_shown(&some, &String::from("semi")));
    assert!(!fuba::tally::round_shown(&some, &String::from("group")));
}

#[test]
fn runs_are_counted_by_round_id() {
    let mut t = Tally::new();
    // two rounds with one name but different ids are counted apart
    assert!(t.record_round(&s("g1"), &s("Group"), &s("A"), &names(&["A", "B"])));
    assert!(t.record_round(&s("g2"), &s("Group"), &s("C"), &names(&["C", "D"])));
    // a round keeps the name it was first recorded with
    assert!(t.record_round(&s("g1"), &s("Other"), &s("B"), &names(&["A", "B"])));
    assert_eq!(t.rounds.len(), 2);
    assert_eq!((t.rounds[0].id.as_str(), t.rounds[0].name.as_str()), ("g1", "Group"));
    assert_eq!(count(&t.rounds[0].winner, "B"), 1);
    assert_eq!(count(&t.rounds[1].winner, "C"), 1);
    let asked = vec![s("g2")];
    assert!(!fuba::tally::round_shown(&asked, &t.rounds[0].id));
    assert!(fuba::tally::round_shown(&asked, &t.rounds[1].id));
}
