use fuba::gen_pairing::generate_round_robin;
use std::collections::HashSet;

#[test]
fn three_teams_one_leg() {
    // one team rests each round
    assert_eq!(generate_round_robin(3, 1, false), vec![vec![1, 3], vec![3, 2], vec![1, 2]]);
}

#[test]
fn four_teams_one_leg() {
    assert_eq!(
        generate_round_robin(4, 1, false),
        vec![vec![1, 3], vec![2, 4], vec![1, 4], vec![3, 2], vec![1, 2], vec![4, 3]]
    );
}

#[test]
fn second_leg_swaps_home_and_away() {
    let g = generate_round_robin(4, 2, false);
    assert_eq!(g.len(), 12);
    for i in 0..6 {
        assert_eq!(g[i + 6], vec![g[i][1], g[i][0]]);
    }
    // the third leg plays the first again
    let g3 = generate_round_robin(4, 3, false);
    assert_eq!(g3[12..18].to_vec(), g3[0..6].to_vec());
}

fn check_every_pair_once_per_leg(n: u32, g: &Vec<Vec<u32>>) {
    let mut seen = HashSet::new();
    for p in g {
        assert_eq!(p.len(), 2);
        assert!(p[0] >= 1 && p[0] <= n && p[1] >= 1 && p[1] <= n && p[0] != p[1]);
        let key = if p[0] < p[1] { (p[0], p[1]) } else { (p[1], p[0]) };
        assert!(seen.insert(key));
    }
    assert_eq!(seen.len() as u32, n * (n - 1) / 2);
}

#[test]
fn every_pair_meets_once() {
    for n in 3..12 {
        let g = generate_round_robin(n, 1, false);
        check_every_pair_once_per_leg(n, &g);
    }
}

#[test]
fn every_team_plays_at_most_once_per_round() {
    for n in 3..12u32 {
        let g = generate_round_robin(n, 1, false);
        let per_round = (n / 2) as usize;
        for r in g.chunks(per_round) {
            let mut teams = HashSet::new();
            for p in r {
                assert!(teams.insert(p[0]));
                assert!(teams.insert(p[1]));
            }
        }
    }
}

#[test]
fn random_order_keeps_rounds_whole() {
    let fixed = generate_round_robin(6, 2, false);
    let shuffled = generate_round_robin(6, 2, true);
    assert_eq!(shuffled.len(), fixed.len());
    let rounds: Vec<Vec<Vec<u32>>> = fixed.chunks(3).map(|c| c.to_vec()).collect();
    for r in shuffled.chunks(3) {
        assert!(rounds.contains(&r.to_vec()));
    }
    let mut a = fixed.clone();
    let mut b = shuffled.clone();
    a.sort();
    b.sort();
    assert_eq!(a, b);
}

#[test]
fn rounds_come_in_the_given_order() {
    let games = vec![vec![1, 2], vec![3, 4], vec![1, 3], vec![2, 4], vec![1, 4], vec![2, 3]];
    let r = fuba::gen_pairing::reorder_games(&games, &vec![2, 0, 1], 2);
    assert_eq!(r, vec![vec![1, 4], vec![2, 3], vec![1, 2], vec![3, 4], vec![1, 3], vec![2, 4]]);
    assert_eq!(fuba::gen_pairing::reorder_games(&games, &vec![], 2), Vec::<Vec<u32>>::new());
}
