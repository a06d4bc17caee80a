use fuba::shootout::Shootout;

/// Runs a shootout in which a kick scores as `scores` says, listing the kicks.
fn run(scores: impl Fn(bool, u32) -> bool) -> (Vec<(bool, u32)>, Shootout) {
    let mut s = Shootout::new();
    let mut kicks = vec![];
    while let Some((by_first, n)) = s.next_kick() {
        kicks.push((by_first, n));
        s.record(scores(by_first, n));
    }
    (kicks, s)
}

#[test]
fn one_side_too_far_behind_stops_early() {
    let (kicks, s) = run(|by_first, _| by_first);
    assert_eq!(kicks, vec![(true, 1), (false, 1), (true, 2), (false, 2), (true, 3), (false, 3), (true, 4)]);
    assert_eq!(s.goals(true), (vec![1, 2, 3, 4], vec![]));
    assert_eq!(s.goals(false), (vec![], vec![1, 2, 3, 4]));
}

#[test]
fn level_after_five_goes_to_sudden_death() {
    // both score the first five; in round 6 only the second team scores
    let (kicks, s) = run(|by_first, n| n <= 5 || !by_first);
    assert_eq!(kicks.len(), 12);
    assert_eq!(kicks[10], (true, 6));
    assert_eq!(kicks[11], (false, 6));
    assert_eq!(s.goals(true), (vec![1, 2, 3, 4, 5], vec![1, 2, 3, 4, 5, 6]));
}

#[test]
fn sudden_death_goes_on_while_level() {
    // nobody scores until round 8, where only the first team does
    let (kicks, s) = run(|by_first, n| n == 8 && by_first);
    assert_eq!(kicks.len(), 16);
    assert_eq!(kicks[15], (false, 8));
    let (a, b) = s.goals(true);
    assert_eq!((a, b), (vec![8], vec![]));
}
