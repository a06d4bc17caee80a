use fuba::assemble::build_config;
use fuba::config::{
    verify, verify_uniq, Config, ConfigError, ConfigErrorKind, ConfigPars, EntrantPars, EntrantType, Format, Mode,
    RankBy, RoundPars, Team,
};

fn team(id: &str) -> Team {
    Team { id: String::from(id), name: format!("Team {}", id), elo: 1500 }
}

fn format(id: &str, mode: Mode) -> Format {
    Format {
        id: String::from(id),
        mode,
        order: None,
        neutral: false,
        random: false,
        rank_by: vec![RankBy::Points, RankBy::GoalDiff, RankBy::Goals],
        copy: false,
        legs: 1,
        points_for_win: 3,
        points_for_draw: 1,
    }
}

fn by_id(id: &str) -> EntrantPars {
    EntrantPars { id: Some(String::from(id)), prev: None, pos: None, set_flag: None, if_flag: None }
}

fn by_pos(prev: &str, pos: u32) -> EntrantPars {
    EntrantPars { id: None, prev: Some(String::from(prev)), pos: Some(pos), set_flag: None, if_flag: None }
}

fn by_flag(prev: &str, checks: &[&str]) -> EntrantPars {
    EntrantPars {
        id: None,
        prev: Some(String::from(prev)),
        pos: None,
        set_flag: None,
        if_flag: Some(checks.iter().map(|s| String::from(*s)).collect()),
    }
}

fn round(id: &str, format: &str, entrant: Vec<EntrantPars>) -> RoundPars {
    RoundPars { id: String::from(id), name: format!("Round {}", id), format: String::from(format), entrant }
}

fn pars(root: &str, round: Vec<RoundPars>) -> ConfigPars {
    ConfigPars {
        name: String::from("cup"),
        seed: Some(7),
        root: String::from(root),
        team: vec![team("a"), team("b"), team("c"), team("d")],
        format: vec![format("rr", Mode::RoundRobin), format("ko", Mode::Playoff)],
        round,
    }
}

fn cup() -> ConfigPars {
    pars(
        "final",
        vec![
            round("final", "ko", vec![by_pos("g1", 1), by_flag("g2", &["W", "W"])]),
            round("g1", "rr", vec![by_id("a"), by_id("b"), by_id("c")]),
            round("g2", "rr", vec![by_id("d"), by_pos("g1", 3), by_id("a")]),
        ],
    )
}

fn error_of(r: Result<Config, ConfigError>) -> (ConfigErrorKind, String) {
    match r {
        Ok(_) => panic!("expected an error"),
        Err(e) => (e.kind, e.subject),
    }
}

fn verify_error(c: &ConfigPars) -> (ConfigErrorKind, String) {
    match verify(c) {
        Ok(_) => panic!("expected an error"),
        Err(e) => (e.kind, e.subject),
    }
}

#[test]
fn rounds_come_after_their_sources() {
    let order = match verify(&cup()) {
        Ok(o) => o,
        Err(_) => panic!("valid configuration refused"),
    };
    // g1, then g2 (takes from g1), then the final (takes from both)
    assert_eq!(order, vec![1, 2, 0]);
}

#[test]
fn build_orders_rounds_and_links_entrants() {
    let cfg = match build_config(cup()) {
        Ok(c) => c,
        Err(e) => panic!("valid configuration refused: {}", e.subject),
    };
    let ids: Vec<&str> = cfg.round.iter().map(|r| r.id.as_str()).collect();
    assert_eq!(ids, vec!["g1", "g2", "final"]);
    assert_eq!(cfg.root, 2);
    assert_eq!(cfg.name, "cup");
    assert_eq!(cfg.seed, Some(7));
    // g1's entrants are teams a, b, c
    assert!(matches!(cfg.round[0].entrant[0].t, EntrantType::Team(0)));
    assert!(matches!(cfg.round[0].entrant[2].t, EntrantType::Team(2)));
    // g2's second entrant is the third of g1, now at position 0
    assert!(matches!(cfg.round[1].entrant[1].t, EntrantType::Prev(0, 3)));
    // the final takes the first of g1 and the holder of flag W of g2
    assert!(matches!(cfg.round[2].entrant[0].t, EntrantType::Prev(0, 1)));
    match &cfg.round[2].entrant[1].t {
        EntrantType::PrevFlag(1, checks) => {
            assert_eq!(checks.len(), 1);
            assert_eq!(checks[0].0.pretty_print(), "W");
            assert_eq!(checks[0].1, "W");
        },
        _ => panic!("expected flag checks"),
    }
    assert_eq!(cfg.round[2].format, 1);
    assert_eq!(cfg.round[0].format, 0);
}

#[test]
fn copy_keeps_everything() {
    let cfg = build_config(cup()).ok().unwrap();
    let c = cfg.copy();
    assert_eq!(c.round.len(), cfg.round.len());
    assert_eq!(c.root, cfg.root);
    assert_eq!(c.team.len(), 4);
    assert_eq!(c.team[3].id, "d");
    assert_eq!(c.format[1].mode, Mode::Playoff);
    match &c.round[2].entrant[1].t {
        EntrantType::PrevFlag(1, checks) => assert_eq!(checks[0].0.pretty_print(), "W"),
        _ => panic!("expected flag checks"),
    }
}

#[test]
fn duplicate_ids() {
    assert_eq!(
        verify_uniq(&vec![String::from("x"), String::from("y"), String::from("x"), String::from("y")]),
        Err(String::from("x"))
    );
    let mut c = cup();
    c.team.push(team("b"));
    assert_eq!(verify_error(&c), (ConfigErrorKind::DuplicateTeam, String::from("b")));
    let mut c = cup();
    c.format.push(format("ko", Mode::Ranking));
    assert_eq!(verify_error(&c), (ConfigErrorKind::DuplicateFormat, String::from("ko")));
    let mut c = cup();
    c.round.push(round("g1", "rr", vec![]));
    assert_eq!(verify_error(&c), (ConfigErrorKind::DuplicateRound, String::from("g1")));
}

#[test]
fn entrant_problems() {
    let c = pars("r", vec![round("r", "none", vec![])]);
    assert_eq!(verify_error(&c), (ConfigErrorKind::FormatNotFound, String::from("none")));
    let both = EntrantPars { id: Some(String::from("a")), prev: Some(String::from("q")), pos: Some(1), set_flag: None, if_flag: None };
    let c = pars("r", vec![round("r", "rr", vec![both]), round("q", "rr", vec![])]);
    assert_eq!(verify_error(&c), (ConfigErrorKind::IdAndPrev, String::from("r")));
    let none = EntrantPars { id: None, prev: None, pos: None, set_flag: None, if_flag: None };
    let c = pars("r", vec![round("r", "rr", vec![none])]);
    assert_eq!(verify_error(&c), (ConfigErrorKind::NoIdOrPrev, String::from("r")));
    let c = pars("r", vec![round("r", "rr", vec![by_id("zz")])]);
    assert_eq!(verify_error(&c), (ConfigErrorKind::TeamNotFound, String::from("zz")));
    let c = pars("r", vec![round("r", "rr", vec![by_pos("r", 1)])]);
    assert_eq!(verify_error(&c), (ConfigErrorKind::PrevIsSelf, String::from("r")));
    let neither = EntrantPars { id: None, prev: Some(String::from("q")), pos: None, set_flag: None, if_flag: None };
    let c = pars("r", vec![round("r", "rr", vec![neither]), round("q", "rr", vec![])]);
    assert_eq!(verify_error(&c), (ConfigErrorKind::PosOrIfFlag, String::from("r")));
    let c = pars("r", vec![round("r", "rr", vec![by_pos("nowhere", 1)])]);
    assert_eq!(verify_error(&c), (ConfigErrorKind::PrevNotFound, String::from("nowhere")));
}

#[test]
fn cycle_between_rounds() {
    let c = pars("x", vec![round("x", "rr", vec![by_pos("y", 1)]), round("y", "rr", vec![by_pos("x", 1)])]);
    let (kind, _) = verify_error(&c);
    assert_eq!(kind, ConfigErrorKind::Cycle);
}

#[test]
fn build_problems() {
    let c = pars("g1", vec![round("g1", "rr", vec![by_id("a")]), round("f", "ko", vec![by_flag("g1", &["A +", "W"])])]);
    assert_eq!(error_of(build_config(c)), (ConfigErrorKind::BadFlagCheck, String::from("Unexpected character: +")));
    let c = pars("g1", vec![round("g1", "rr", vec![by_id("a")]), round("f", "ko", vec![by_flag("g1", &["W", "W", "X"])])]);
    assert_eq!(error_of(build_config(c)), (ConfigErrorKind::MissingFlag, String::from("X")));
    let c = pars("nowhere", vec![round("g1", "rr", vec![by_id("a")])]);
    assert_eq!(error_of(build_config(c)), (ConfigErrorKind::RootNotFound, String::from("nowhere")));
    // the check's problems come first
    let c = pars("nowhere", vec![round("g1", "rr", vec![by_id("zz")])]);
    assert_eq!(error_of(build_config(c)), (ConfigErrorKind::TeamNotFound, String::from("zz")));
}
