//! Round robin schedules by the circle method.
use vstd::prelude::*;
use rand::Rng;

verus! {

broadcast use vstd::seq_lib::group_to_multiset_ensures;

#[verifier::external_type_specification]
#[verifier::external_body]
pub struct ExThreadRng(rand::rngs::ThreadRng);

/// Calls `rand::thread_rng`, the thread-local random number generator.
/// Nothing is promised of it.
#[verifier::external_body]
pub(crate) fn thread_rng() -> rand::rngs::ThreadRng {
    rand::thread_rng()
}

/// Calls `rand::Rng::shuffle`, which puts the values in a random order. The
/// contract claims that the result is a permutation of the values (the
/// same values, each as often as before), which the Fisher-Yates swaps of
/// the source make it; which permutation is left open.
#[verifier::external_body]
fn shuffle(rng: &mut rand::rngs::ThreadRng, values: &mut Vec<usize>)
    ensures
        final(values)@.to_multiset() == old(values)@.to_multiset(),
{
    rng.shuffle(values.as_mut_slice())
}

/// Number of places in the schedule: an odd number of teams gets a dummy
/// team, whose opponent rests.
pub open spec fn places(num_teams: nat) -> nat {
    if num_teams % 2 != 0 {
        num_teams + 1
    } else {
        num_teams
    }
}

/// The dummy team, or 0 when there is none.
pub open spec fn dummy_of(num_teams: nat) -> nat {
    if num_teams % 2 != 0 {
        num_teams + 1
    } else {
        0
    }
}

/// The two columns of the circle at the start: `1..=n/2` and `n/2+1..=n`.
pub open spec fn initial_columns(n: nat) -> (Seq<u32>, Seq<u32>) {
    let g = n / 2;
    (Seq::new(g, |i: int| (i + 1) as u32), Seq::new(g, |i: int| (g + i + 1) as u32))
}

/// One turn of the circle: team 1 stays; the others move one place.
pub open spec fn rotate(c: (Seq<u32>, Seq<u32>)) -> (Seq<u32>, Seq<u32>) {
    let a = c.0;
    let b = c.1;
    (seq![1u32, b[0]] + a.subrange(1, a.len() - 1), b.subrange(1, b.len() as int).push(a.last()))
}

/// The columns in round `r`.
pub open spec fn columns(n: nat, r: nat) -> (Seq<u32>, Seq<u32>)
    decreases r,
{
    if r == 0 {
        initial_columns(n)
    } else {
        rotate(columns(n, (r - 1) as nat))
    }
}

/// The games of the first `k` rows of the columns, leaving out the dummy.
pub open spec fn round_games(c: (Seq<u32>, Seq<u32>), dummy: nat, k: nat) -> Seq<Seq<u32>>
    decreases k,
{
    if k == 0 {
        seq![]
    } else {
        let i = k - 1;
        let rest = round_games(c, dummy, (k - 1) as nat);
        if c.0[i] != dummy && c.1[i] != dummy {
            rest.push(seq![c.0[i], c.1[i]])
        } else {
            rest
        }
    }
}

/// The games of the first `r` rounds of one leg.
pub open spec fn leg_games(num_teams: nat, r: nat) -> Seq<Seq<u32>>
    decreases r,
{
    if r == 0 {
        seq![]
    } else {
        let n = places(num_teams);
        leg_games(num_teams, (r - 1) as nat) + round_games(columns(n, (r - 1) as nat), dummy_of(num_teams), n / 2)
    }
}

/// The games with home and away swapped.
pub open spec fn mirror(p: Seq<Seq<u32>>) -> Seq<Seq<u32>> {
    p.map_values(|x: Seq<u32>| seq![x[1], x[0]])
}

/// `legs` legs of the games `p`: the first as it is, then mirrored and
/// plain in turn.
pub open spec fn with_legs(p: Seq<Seq<u32>>, legs: nat) -> Seq<Seq<u32>>
    decreases legs,
{
    if legs <= 1 {
        p
    } else {
        with_legs(p, (legs - 1) as nat) + if (legs - 1) % 2 != 0 {
            mirror(p)
        } else {
            p
        }
    }
}

/// The schedule in its order: every leg, round by round.
pub open spec fn schedule(num_teams: nat, legs: nat) -> Seq<Seq<u32>> {
    with_legs(leg_games(num_teams, (places(num_teams) - 1) as nat), legs)
}

/// The rounds of `p` (blocks of `per_round` games) in the order `order`.
pub open spec fn reorder_rounds(p: Seq<Seq<u32>>, order: Seq<usize>, per_round: nat) -> Seq<Seq<u32>>
    decreases order.len(),
{
    if order.len() == 0 {
        seq![]
    } else {
        let s = order.last() as int;
        reorder_rounds(p, order.drop_last(), per_round) + p.subrange(s * per_round, s * per_round + per_round)
    }
}

/// `order` holds each of `0..m` exactly once.
pub open spec fn is_order_of(order: Seq<usize>, m: nat) -> bool {
    &&& order.len() == m
    &&& forall|i: int| 0 <= i < order.len() ==> #[trigger] order[i] < m
    &&& order.no_duplicates()
}

/// Views of a list of games.
pub open spec fn games_view(v: Seq<Vec<u32>>) -> Seq<Seq<u32>> {
    v.map_values(|x: Vec<u32>| x@)
}

/// Games per round, without the game of the dummy team.
pub open spec fn games_per_round(num_teams: nat) -> nat {
    if num_teams % 2 != 0 {
        (places(num_teams) / 2 - 1) as nat
    } else {
        places(num_teams) / 2
    }
}

/// Sizes stay within `usize`.
pub open spec fn sizes_fit(num_teams: nat, legs: nat) -> bool {
    (num_teams + 2) * (num_teams + 2) * (legs + 1) <= usize::MAX
}

/// The columns of round `r` hold each of the places `1..=n` once.
pub open spec fn columns_wf(c: (Seq<u32>, Seq<u32>), n: nat) -> bool {
    &&& c.0.len() == n / 2
    &&& c.1.len() == n / 2
    &&& (c.0 + c.1).no_duplicates()
    &&& forall|i: int| 0 <= i < (c.0 + c.1).len() ==> 1 <= #[trigger] (c.0 + c.1)[i] <= n
    &&& c.0[0] == 1
}

proof fn lemma_initial_wf(n: nat)
    requires
        n >= 4,
        n % 2 == 0,
        n <= u32::MAX,
    ensures
        columns_wf(initial_columns(n), n),
{
    let c = initial_columns(n);
    let s = c.0 + c.1;
    let g = n / 2;
    assert forall|i: int| 0 <= i < s.len() implies #[trigger] s[i] == (i + 1) as u32 by {
        if i < g {
            assert(s[i] == c.0[i]);
        } else {
            assert(s[i] == c.1[i - g]);
        }
    }
    assert forall|i: int, j: int| 0 <= i < s.len() && 0 <= j < s.len() && i != j implies s[i] != s[j] by {
        assert(s[i] == (i + 1) as u32);
        assert(s[j] == (j + 1) as u32);
    }
}

/// Turning the circle keeps every place once.
proof fn lemma_rotate_wf(c: (Seq<u32>, Seq<u32>), n: nat)
    requires
        n >= 4,
        columns_wf(c, n),
    ensures
        columns_wf(rotate(c), n),
        (rotate(c).0 + rotate(c).1).to_multiset() == (c.0 + c.1).to_multiset(),
{
    let a = c.0;
    let b = c.1;
    let g = n / 2;
    let r = rotate(c);
    let s = a + b;
    let t = r.0 + r.1;
    // t is s with the elements at positions moved: build the position map
    let pos = |k: int|
        if k == 0 {
            0int
        } else if k == 1 {
            g as int
        } else if k < g {
            k - 1
        } else if k < 2 * g - 1 {
            k + 1
        } else {
            g - 1
        };
    assert forall|k: int| 0 <= k < t.len() implies #[trigger] t[k] == s[pos(k)] && 0 <= pos(k) < s.len() by {
        if k == 0 {
            assert(t[k] == 1u32);
            assert(s[0] == a[0]);
        } else if k == 1 {
            assert(t[k] == b[0]);
            assert(s[g as int] == b[0]);
        } else if k < g {
            assert(t[k] == a[k - 1]);
        } else if k < 2 * g - 1 {
            assert(t[k] == r.1[k - g]);
            assert(r.1[k - g] == b[k - g + 1]);
            assert(s[k + 1] == b[k + 1 - g]);
        } else {
            assert(t[k] == r.1[g - 1]);
            assert(r.1[g - 1] == a[g - 1]);
        }
    }
    assert forall|k: int, l: int| 0 <= k < t.len() && 0 <= l < t.len() && k != l implies #[trigger] pos(k) != #[trigger] pos(l) by {}
    assert(t.len() == s.len());
    assert forall|i: int, j: int| 0 <= i < t.len() && 0 <= j < t.len() && i != j implies t[i] != t[j] by {
        assert(t[i] == s[pos(i)]);
        assert(t[j] == s[pos(j)]);
    }
    assert forall|i: int| 0 <= i < t.len() implies 1 <= #[trigger] t[i] <= n by {
        assert(t[i] == s[pos(i)]);
    }
    assert(t.no_duplicates());
    // same multiset: both have no duplicates and the same elements
    assert forall|x: u32| #[trigger] t.to_multiset().count(x) == s.to_multiset().count(x) by {
        t.lemma_multiset_has_no_duplicates();
        s.lemma_multiset_has_no_duplicates();
        if t.contains(x) {
            let k = choose|k: int| 0 <= k < t.len() && t[k] == x;
            assert(s[pos(k)] == x);
            assert(s.contains(x));
        } else if s.contains(x) {
            let j = choose|j: int| 0 <= j < s.len() && s[j] == x;
            // pos is onto: find its preimage
            let k = if j == 0 {
                0int
            } else if j == g {
                1int
            } else if j < g - 1 {
                j + 1
            } else if j == g - 1 {
                2 * g - 1
            } else {
                j - 1
            };
            assert(pos(k) == j);
            assert(t[k] == x);
            assert(t.contains(x));
        }
    }
    assert(t.to_multiset() =~= s.to_multiset());
}

pub(crate) proof fn lemma_columns_wf(n: nat, r: nat)
    requires
        n >= 4,
        n % 2 == 0,
        n <= u32::MAX,
    ensures
        columns_wf(columns(n, r), n),
    decreases r,
{
    if r == 0 {
        lemma_initial_wf(n);
    } else {
        lemma_columns_wf(n, (r - 1) as nat);
        lemma_rotate_wf(columns(n, (r - 1) as nat), n);
    }
}

/// Number of rows among the first `k` in which the value `x` stands.
spec fn rows_with(c: (Seq<u32>, Seq<u32>), x: nat, k: nat) -> nat
    decreases k,
{
    if k == 0 {
        0
    } else {
        rows_with(c, x, (k - 1) as nat) + if c.0[k - 1] == x || c.1[k - 1] == x { 1nat } else { 0 }
    }
}

proof fn lemma_round_games_len(c: (Seq<u32>, Seq<u32>), dummy: nat, k: nat)
    requires
        k <= c.0.len(),
        k <= c.1.len(),
    ensures
        round_games(c, dummy, k).len() + rows_with(c, dummy, k) == k,
    decreases k,
{
    if k > 0 {
        lemma_round_games_len(c, dummy, (k - 1) as nat);
    }
}

/// A value that stands once in the columns stands in one row; one that does
/// not stand there, in none.
proof fn lemma_rows_with(c: (Seq<u32>, Seq<u32>), x: nat, k: nat, n: nat)
    requires
        columns_wf(c, n),
        k <= n / 2,
    ensures
        rows_with(c, x, k) == if exists|i: int| 0 <= i < k && (c.0[i] == x || c.1[i] == x) { 1nat } else { 0nat },
    decreases k,
{
    if k > 0 {
        lemma_rows_with(c, x, (k - 1) as nat, n);
        let s = c.0 + c.1;
        let i = k - 1;
        if c.0[i] == x || c.1[i] == x {
            if exists|j: int| 0 <= j < i && (c.0[j] == x || c.1[j] == x) {
                let j = choose|j: int| 0 <= j < i && (c.0[j] == x || c.1[j] == x);
                let g = (n / 2) as int;
                let pi = if c.0[i] == x { i } else { g + i };
                let pj = if c.0[j] == x { j } else { g + j };
                assert(s[pi] == x);
                assert(s[pj] == x);
                assert(false);
            }
        }
    }
}

/// Each round of a schedule has `games_per_round` games.
proof fn lemma_round_size(num_teams: nat, r: nat)
    requires
        3 <= num_teams < u32::MAX,
    ensures
        round_games(columns(places(num_teams), r), dummy_of(num_teams), places(num_teams) / 2).len() == games_per_round(
            num_teams,
        ),
{
    let n = places(num_teams);
    let c = columns(n, r);
    let d = dummy_of(num_teams);
    lemma_columns_wf(n, r);
    lemma_round_games_len(c, d, n / 2);
    lemma_rows_with(c, d, n / 2, n);
    let s = c.0 + c.1;
    let g = (n / 2) as int;
    if num_teams % 2 != 0 {
        // the dummy is the place n, which stands somewhere
        assert(s.to_multiset().len() == n);
        assert(s.len() == n);
        lemma_place_present(s, n);
        let p = choose|p: int| 0 <= p < s.len() && s[p] == n;
        if p < g {
            assert(c.0[p] == s[p]);
        } else {
            assert(c.1[p - g] == s[p]);
        }
    } else {
        assert forall|i: int| 0 <= i < g implies !(c.0[i] == d || c.1[i] == d) by {
            assert(s[i] == c.0[i]);
            assert(s[g + i] == c.1[i]);
        }
    }
}

/// `n` distinct values from `1..=n` hold `n` itself.
proof fn lemma_place_present(s: Seq<u32>, n: nat)
    requires
        s.len() == n,
        n >= 1,
        s.no_duplicates(),
        forall|i: int| 0 <= i < s.len() ==> 1 <= #[trigger] s[i] <= n,
    ensures
        exists|p: int| 0 <= p < s.len() && s[p] == n,
{
    if !(exists|p: int| 0 <= p < s.len() && s[p] == n) {
        // then s maps n positions into n - 1 values
        let f = |i: int| (s[i] - 1) as int;
        assert forall|i: int| 0 <= i < n implies 0 <= #[trigger] f(i) < n - 1 by {
            assert(s[i] != n);
        }
        lemma_pigeonhole(f, n);
        let (i, j) = choose|i: int, j: int| 0 <= i < j < n && #[trigger] f(i) == #[trigger] f(j);
        assert(s[i] == s[j]);
    }
}

/// `n` values below `n - 1` repeat.
pub(crate) proof fn lemma_pigeonhole(f: spec_fn(int) -> int, n: nat)
    requires
        n >= 1,
        forall|i: int| 0 <= i < n ==> 0 <= #[trigger] f(i) < n - 1,
    ensures
        exists|i: int, j: int| 0 <= i < j < n && #[trigger] f(i) == #[trigger] f(j),
    decreases n,
{
    if n == 1 {
        assert(0 <= f(0) < n - 1);
        assert(false);
    } else {
        let m = (n - 1) as int;
        // if f(m) is hit by some i < m, done; else remap
        if exists|i: int| 0 <= i < m && #[trigger] f(i) == f(m) {
            let i = choose|i: int| 0 <= i < m && #[trigger] f(i) == f(m);
            assert(0 <= i < m && f(i) == f(m));
        } else {
            let v = f(m);
            let h = |i: int| if f(i) == m - 1 { v } else { f(i) };
            assert forall|i: int| 0 <= i < m implies 0 <= #[trigger] h(i) < m - 1 by {
                if f(i) != m - 1 {
                    assert(f(i) < m - 1 || f(i) == m - 1);
                }
            }
            lemma_pigeonhole(h, m as nat);
            let (i, j) = choose|i: int, j: int| 0 <= i < j < m && #[trigger] h(i) == #[trigger] h(j);
            if f(i) == m - 1 && f(j) != m - 1 {
                assert(h(j) == f(j) && f(j) == v);
                assert(false);
            } else if f(j) == m - 1 && f(i) != m - 1 {
                assert(h(i) == f(i) && f(i) == v);
                assert(false);
            }
            assert(f(i) == f(j));
        }
    }
}

/// Every game names two places.
pub open spec fn games_wf(p: Seq<Seq<u32>>) -> bool {
    forall|i: int| 0 <= i < p.len() ==> (#[trigger] p[i]).len() == 2
}

proof fn lemma_round_games_wf(c: (Seq<u32>, Seq<u32>), d: nat, k: nat)
    ensures
        games_wf(round_games(c, d, k)),
    decreases k,
{
    if k > 0 {
        lemma_round_games_wf(c, d, (k - 1) as nat);
    }
}

proof fn lemma_leg_games(num_teams: nat, r: nat)
    requires
        3 <= num_teams < u32::MAX,
    ensures
        games_wf(leg_games(num_teams, r)),
        leg_games(num_teams, r).len() == r * games_per_round(num_teams),
    decreases r,
{
    if r > 0 {
        lemma_leg_games(num_teams, (r - 1) as nat);
        let n = places(num_teams);
        lemma_round_games_wf(columns(n, (r - 1) as nat), dummy_of(num_teams), n / 2);
        lemma_round_size(num_teams, (r - 1) as nat);
        assert(leg_games(num_teams, r).len() == leg_games(num_teams, (r - 1) as nat).len() + games_per_round(num_teams));
        assert((r - 1) * games_per_round(num_teams) + games_per_round(num_teams) == r * games_per_round(num_teams)) by (nonlinear_arith);
    } else {
        assert(0 * games_per_round(num_teams) == 0);
    }
}

proof fn lemma_with_legs(p: Seq<Seq<u32>>, legs: nat)
    requires
        games_wf(p),
    ensures
        games_wf(with_legs(p, legs)),
        with_legs(p, legs).len() == if legs <= 1 { p.len() } else { legs * p.len() },
    decreases legs,
{
    if legs > 1 {
        lemma_with_legs(p, (legs - 1) as nat);
        let m = mirror(p);
        assert(games_wf(m));
        assert(m.len() == p.len());
        assert(with_legs(p, legs).len() == with_legs(p, (legs - 1) as nat).len() + p.len());
        if legs - 1 <= 1 {
            assert(legs == 2);
            assert(legs * p.len() == p.len() + p.len()) by (nonlinear_arith)
                requires
                    legs == 2,
            ;
        } else {
            assert((legs - 1) * p.len() + p.len() == legs * p.len()) by (nonlinear_arith);
        }
    }
}

pub(crate) fn copy_range(v: &Vec<u32>, lo: usize, hi: usize) -> (res: Vec<u32>)
    requires
        lo <= hi <= v@.len(),
    ensures
        res@ == v@.subrange(lo as int, hi as int),
{
    let mut res: Vec<u32> = Vec::new();
    let mut i: usize = lo;
    while i < hi
        invariant
            lo <= i <= hi,
            hi <= v@.len(),
            res@ == v@.subrange(lo as int, i as int),
        decreases hi - i,
    {
        res.push(v[i]);
        i = i + 1;
        proof {
            assert(res@ =~= v@.subrange(lo as int, i as int));
        }
    }
    res
}

/// Appends copies of the games `src[lo..hi]` to `dst`.
fn append_games(dst: &mut Vec<Vec<u32>>, src: &Vec<Vec<u32>>, lo: usize, hi: usize)
    requires
        lo <= hi <= src@.len(),
    ensures
        games_view(final(dst)@) == games_view(old(dst)@) + games_view(src@).subrange(lo as int, hi as int),
{
    let ghost d0 = games_view(dst@);
    let mut i: usize = lo;
    while i < hi
        invariant
            lo <= i <= hi,
            hi <= src@.len(),
            games_view(dst@) == d0 + games_view(src@).subrange(lo as int, i as int),
        decreases hi - i,
    {
        let ghost before = dst@;
        let g = copy_range(&src[i], 0, src[i].len());
        dst.push(g);
        i = i + 1;
        proof {
            assert(src@[i - 1]@.subrange(0, src@[i - 1]@.len() as int) =~= src@[i - 1]@);
            assert(games_view(dst@) =~= games_view(before).push(src@[i - 1]@));
            assert(games_view(dst@) =~= d0 + games_view(src@).subrange(lo as int, i as int));
        }
    }
}

/// The games with home and away swapped.
fn mirror_games(p: &Vec<Vec<u32>>) -> (res: Vec<Vec<u32>>)
    requires
        games_wf(games_view(p@)),
    ensures
        games_view(res@) == mirror(games_view(p@)),
{
    let mut res: Vec<Vec<u32>> = Vec::new();
    let mut i: usize = 0;
    while i < p.len()
        invariant
            i <= p@.len(),
            games_wf(games_view(p@)),
            games_view(res@) == mirror(games_view(p@)).take(i as int),
        decreases p@.len() - i,
    {
        let ghost before = res@;
        proof {
            assert(games_view(p@)[i as int].len() == 2);
        }
        let x = &p[i];
        let g = vec![x[1], x[0]];
        proof {
            assert(g@ =~= seq![games_view(p@)[i as int][1], games_view(p@)[i as int][0]]);
        }
        res.push(g);
        i = i + 1;
        proof {
            assert(games_view(res@) =~= games_view(before).push(g@));
            assert(mirror(games_view(p@)).take(i as int) =~= mirror(games_view(p@)).take(i as int - 1).push(mirror(games_view(p@))[i as int - 1]));
            assert(games_view(res@) =~= mirror(games_view(p@)).take(i as int));
        }
    }
    proof {
        assert(mirror(games_view(p@)).take(p@.len() as int) =~= mirror(games_view(p@)));
    }
    res
}

/// Generates a round robin schedule for `num_teams` teams: the games as
/// pairs of team numbers (from 1), round by round, every team meeting every
/// other team once per leg, by the circle method (team 1 stays, the others
/// turn). With an odd number of teams, one team rests each round. Legs
/// after the first swap home and away in turn. With `randomize`, the rounds
/// come in a random order.
pub fn generate_round_robin(num_teams: u32, num_legs: u32, randomize: bool) -> (res: Vec<Vec<u32>>)
    requires
        3 <= num_teams < u32::MAX,
        sizes_fit(num_teams as nat, num_legs as nat),
    ensures
        !randomize ==> games_view(res@) == schedule(num_teams as nat, num_legs as nat),
        randomize ==> exists|order: Seq<usize>|
            is_order_of(order, ((places(num_teams as nat) - 1) * num_legs) as nat) && games_view(res@) == reorder_rounds(
                schedule(num_teams as nat, num_legs as nat),
                order,
                games_per_round(num_teams as nat),
            ),
{
    let ghost nt = num_teams as nat;
    let dummy_team: u32 = if num_teams % 2 != 0 { num_teams + 1 } else { 0 };
    let num_teams_in_calc: u32 = if dummy_team != 0 { num_teams + 1 } else { num_teams };
    let number_of_rounds: u32 = num_teams_in_calc - 1;
    let games_per_round: u32 = num_teams_in_calc / 2;
    let ghost n = num_teams_in_calc as nat;
    proof {
        assert(n == places(nt));
        assert(dummy_team == dummy_of(nt));
    }
    let mut column_a: Vec<u32> = Vec::new();
    let mut column_b: Vec<u32> = Vec::new();
    let mut x: u32 = 1;
    while x < games_per_round + 1
        invariant
            1 <= x <= games_per_round + 1,
            games_per_round == n / 2,
            n == num_teams_in_calc,
            n <= u32::MAX,
            column_a@ =~= initial_columns(n).0.take(x as int - 1),
            column_b@ =~= initial_columns(n).1.take(x as int - 1),
        decreases games_per_round + 1 - x,
    {
        column_a.push(x);
        column_b.push(games_per_round + x);
        x = x + 1;
    }
    proof {
        assert(initial_columns(n).0.take((n / 2) as int) =~= initial_columns(n).0);
        assert(initial_columns(n).1.take((n / 2) as int) =~= initial_columns(n).1);
    }
    let mut pairings: Vec<Vec<u32>> = Vec::new();
    let mut r: u32 = 0;
    while r < number_of_rounds
        invariant
            r <= number_of_rounds,
            number_of_rounds == n - 1,
            games_per_round == n / 2,
            n == places(nt),
            n >= 4,
            n % 2 == 0,
            n <= u32::MAX,
            dummy_team == dummy_of(nt),
            3 <= nt < u32::MAX,
            column_a@ == columns(n, r as nat).0,
            column_b@ == columns(n, r as nat).1,
            games_view(pairings@) == leg_games(nt, r as nat),
        decreases number_of_rounds - r,
    {
        proof {
            lemma_columns_wf(n, r as nat);
        }
        let ghost c = columns(n, r as nat);
        let mut i: u32 = 0;
        while i < games_per_round
            invariant
                i <= games_per_round,
                games_per_round == n / 2,
                c == columns(n, r as nat),
                columns_wf(c, n),
                column_a@ == c.0,
                column_b@ == c.1,
                games_view(pairings@) == leg_games(nt, r as nat) + round_games(c, dummy_team as nat, i as nat),
            decreases games_per_round - i,
        {
            let j = i as usize;
            let ghost before = pairings@;
            if (column_a[j] != dummy_team) && (column_b[j] != dummy_team) {
                pairings.push(vec![column_a[j], column_b[j]]);
                proof {
                    assert(games_view(pairings@) =~= games_view(before).push(seq![c.0[j as int], c.1[j as int]]));
                }
            }
            i = i + 1;
        }
        // rotate elements
        let tmp1 = column_a[column_a.len() - 1];
        let mut tmp2 = copy_range(&column_a, 1, column_a.len() - 1);
        let tmp3 = column_b[0];
        let tmp4 = copy_range(&column_b, 1, column_b.len());
        column_a = vec![1];
        column_a.push(tmp3);
        column_a.append(&mut tmp2);
        column_b = tmp4;
        column_b.push(tmp1);
        proof {
            assert(column_a@ =~= rotate(c).0);
            assert(column_b@ =~= rotate(c).1);
        }
        r = r + 1;
    }
    let ghost single = leg_games(nt, (n - 1) as nat);
    proof {
        lemma_leg_games(nt, (n - 1) as nat);
        assert(games_view(pairings@) == single);
    }
    if num_legs > 1 {
        let orig_pairings = copy_games(&pairings);
        let mirror_pairings = mirror_games(&pairings);
        let mut x: u32 = 1;
        proof {
            assert(with_legs(single, 1) == single);
        }
        while x < num_legs
            invariant
                1 <= x <= num_legs,
                games_view(orig_pairings@) == single,
                games_view(mirror_pairings@) == mirror(single),
                games_view(pairings@) == with_legs(single, x as nat),
            decreases num_legs - x,
        {
            if x % 2 != 0 {
                append_games(&mut pairings, &mirror_pairings, 0, mirror_pairings.len());
                proof {
                    assert(games_view(mirror_pairings@).subrange(0, mirror_pairings@.len() as int) =~= mirror(single));
                }
            } else {
                append_games(&mut pairings, &orig_pairings, 0, orig_pairings.len());
                proof {
                    assert(games_view(orig_pairings@).subrange(0, orig_pairings@.len() as int) =~= single);
                }
            }
            x = x + 1;
        }
    }
    proof {
        if num_legs <= 1 {
            assert(with_legs(single, num_legs as nat) == single);
        }
        assert(games_view(pairings@) == schedule(nt, num_legs as nat));
    }
    if randomize {
        let mut rng = thread_rng();
        let real_games_per_round: u32 = if dummy_team > 0 { games_per_round - 1 } else { games_per_round };
        let ghost sched = schedule(nt, num_legs as nat);
        let ghost rg = real_games_per_round as nat;
        proof {
            assert(rg == crate::gen_pairing::games_per_round(nt));
            assert(rg <= nt);
            lemma_with_legs(single, num_legs as nat);
            assert((n - 1) * num_legs <= usize::MAX) by (nonlinear_arith)
                requires
                    sizes_fit(nt, num_legs as nat),
                    n <= nt + 1;
        }
        let total: usize = number_of_rounds as usize * num_legs as usize;
        let mut shuffled_idx: Vec<usize> = Vec::new();
        let mut k: usize = 0;
        while k < total
            invariant
                k <= total,
                shuffled_idx@ =~= Seq::new(k as nat, |i: int| i as usize),
            decreases total - k,
        {
            shuffled_idx.push(k);
            k = k + 1;
        }
        let ghost before_shuffle = shuffled_idx@;
        shuffle(&mut rng, &mut shuffled_idx);
        proof {
            lemma_shuffled_is_order(before_shuffle, shuffled_idx@, total as nat);
        }
        let ghost order = shuffled_idx@;
        proof {
            assert forall|i: int| 0 <= i < order.len() implies (#[trigger] order[i]) * rg + rg <= games_view(pairings@).len() by {
                lemma_block_in_range(order[i] as nat, total as nat, rg, (n - 1) as nat, num_legs as nat, sched.len(), nt);
            }
            assert(is_order_of(order, ((places(nt) - 1) * num_legs) as nat));
        }
        let shuffled_pairings = reorder_games(&pairings, &shuffled_idx, real_games_per_round as usize);
        pairings = shuffled_pairings;
    }
    pairings
}

/// The rounds of `games`, `per_round` games each, in the order `order`:
/// round `order[0]` first, then round `order[1]`, and so on.
pub fn reorder_games(games: &Vec<Vec<u32>>, order: &Vec<usize>, per_round: usize) -> (res: Vec<Vec<u32>>)
    requires
        forall|i: int| 0 <= i < order@.len() ==> (#[trigger] order@[i]) * per_round + per_round <= games@.len(),
    ensures
        games_view(res@) == reorder_rounds(games_view(games@), order@, per_round as nat),
{
    let ghost g = games_view(games@);
    let mut res: Vec<Vec<u32>> = Vec::new();
    let mut i: usize = 0;
    while i < order.len()
        invariant
            i <= order@.len(),
            g == games_view(games@),
            forall|i: int| 0 <= i < order@.len() ==> (#[trigger] order@[i]) * per_round + per_round <= games@.len(),
            games_view(res@) == reorder_rounds(g, order@.take(i as int), per_round as nat),
        decreases order@.len() - i,
    {
        let s = order[i];
        proof {
            assert(order@[i as int] == s);
            assert(s * per_round + per_round <= games@.len());
            assert(games@.len() == games.len());
            assert(s * per_round + per_round <= usize::MAX);
        }
        let start = s * per_round;
        let end = start + per_round;
        append_games(&mut res, games, start, end);
        proof {
            assert(order@.take(i as int + 1).drop_last() =~= order@.take(i as int));
            assert(order@.take(i as int + 1).last() == s);
        }
        i = i + 1;
    }
    proof {
        assert(order@.take(order@.len() as int) =~= order@);
    }
    res
}

/// Round `s` of the schedule lies within it.
proof fn lemma_block_in_range(s: nat, total: nat, rg: nat, rounds: nat, legs: nat, len: nat, nt: nat)
    requires
        s < total,
        total == rounds * legs,
        len == if legs <= 1 { rounds * rg } else { legs * (rounds * rg) },
        (nt + 2) * (nt + 2) * (legs + 1) <= usize::MAX,
        rounds <= nt,
        rg <= nt,
    ensures
        s * rg + rg <= len,
        s * rg + rg <= usize::MAX,
{
    assert(legs >= 1) by (nonlinear_arith)
        requires
            s < total,
            total == rounds * legs,
    ;
    assert(s + 1 <= rounds * legs);
    assert((s + 1) * rg <= rounds * legs * rg) by (nonlinear_arith)
        requires
            s + 1 <= rounds * legs,
    ;
    assert(rounds * legs * rg == legs * (rounds * rg)) by (nonlinear_arith);
    assert(s * rg + rg == (s + 1) * rg) by (nonlinear_arith);
    assert(rounds * legs * rg <= (nt + 2) * (nt + 2) * (legs + 1)) by (nonlinear_arith)
        requires
            rounds <= nt,
            rg <= nt,
    ;
}

/// The shuffled indices `0..m` hold each index once.
proof fn lemma_shuffled_is_order(before: Seq<usize>, after: Seq<usize>, m: nat)
    requires
        m <= usize::MAX,
        before =~= Seq::new(m, |i: int| i as usize),
        after.to_multiset() == before.to_multiset(),
    ensures
        is_order_of(after, m),
{
    assert forall|i: int, j: int| 0 <= i < before.len() && 0 <= j < before.len() && i != j implies before[i] != before[j] by {
        assert(before[i] == i as usize);
        assert(before[j] == j as usize);
    }
    assert(before.no_duplicates());
    before.lemma_multiset_has_no_duplicates();
    after.lemma_multiset_has_no_duplicates_conv();
    assert(after.len() == before.len()) by {
        assert(after.to_multiset().len() == after.len());
        assert(before.to_multiset().len() == before.len());
    }
    assert forall|i: int| 0 <= i < after.len() implies #[trigger] after[i] < m by {
        assert(after.contains(after[i]));
        assert(after.to_multiset().count(after[i]) > 0);
        assert(before.contains(after[i]));
    }
}

/// A copy of the games.
pub(crate) fn copy_games(p: &Vec<Vec<u32>>) -> (res: Vec<Vec<u32>>)
    ensures
        games_view(res@) == games_view(p@),
{
    let mut res: Vec<Vec<u32>> = Vec::new();
    append_games(&mut res, p, 0, p.len());
    proof {
        assert(games_view(p@).subrange(0, p@.len() as int) =~= games_view(p@));
        assert(games_view(Seq::<Vec<u32>>::empty()) + games_view(p@) =~= games_view(p@));
    }
    res
}

/// The games of a round name two places from `1..=n`, neither the dummy.
proof fn lemma_round_games_values(c: (Seq<u32>, Seq<u32>), d: nat, k: nat, n: nat, nt: nat)
    requires
        columns_wf(c, n),
        k <= n / 2,
        n == places(nt),
        d == dummy_of(nt),
    ensures
        forall|i: int| 0 <= i < round_games(c, d, k).len() ==> {
            let g = #[trigger] round_games(c, d, k)[i];
            g.len() == 2 && 1 <= g[0] <= nt && 1 <= g[1] <= nt
        },
    decreases k,
{
    if k > 0 {
        lemma_round_games_values(c, d, (k - 1) as nat, n, nt);
        let g = (n / 2) as int;
        let i = k - 1;
        assert((c.0 + c.1)[i] == c.0[i]);
        assert((c.0 + c.1)[g + i] == c.1[i]);
        let rest = round_games(c, d, (k - 1) as nat);
        assert forall|j: int| 0 <= j < round_games(c, d, k).len() implies {
            let x = #[trigger] round_games(c, d, k)[j];
            x.len() == 2 && 1 <= x[0] <= nt && 1 <= x[1] <= nt
        } by {
            if j < rest.len() {
                assert(round_games(c, d, k)[j] == rest[j]);
            }
        }
    }
}

/// Every game of a leg names two teams from `1..=nt`.
proof fn lemma_leg_values(nt: nat, r: nat)
    requires
        3 <= nt < u32::MAX,
    ensures
        forall|i: int| 0 <= i < leg_games(nt, r).len() ==> {
            let g = #[trigger] leg_games(nt, r)[i];
            g.len() == 2 && 1 <= g[0] <= nt && 1 <= g[1] <= nt
        },
    decreases r,
{
    if r > 0 {
        lemma_leg_values(nt, (r - 1) as nat);
        let n = places(nt);
        lemma_columns_wf(n, (r - 1) as nat);
        lemma_round_games_values(columns(n, (r - 1) as nat), dummy_of(nt), n / 2, n, nt);
        let a = leg_games(nt, (r - 1) as nat);
        let b = round_games(columns(n, (r - 1) as nat), dummy_of(nt), n / 2);
        assert forall|i: int| 0 <= i < (a + b).len() implies {
            let g = #[trigger] (a + b)[i];
            g.len() == 2 && 1 <= g[0] <= nt && 1 <= g[1] <= nt
        } by {
            if i < a.len() {
                assert((a + b)[i] == a[i]);
            } else {
                assert((a + b)[i] == b[i - a.len()]);
            }
        }
    }
}

/// Games all naming two teams from `1..=nt`.
pub open spec fn games_in(p: Seq<Seq<u32>>, nt: nat) -> bool {
    forall|i: int| 0 <= i < p.len() ==> (#[trigger] p[i]).len() >= 2 && 1 <= p[i][0] <= nt && 1 <= p[i][1] <= nt
}

proof fn lemma_with_legs_values(p: Seq<Seq<u32>>, legs: nat, nt: nat)
    requires
        games_in(p, nt),
    ensures
        games_in(with_legs(p, legs), nt),
    decreases legs,
{
    if legs > 1 {
        lemma_with_legs_values(p, (legs - 1) as nat, nt);
        let a = with_legs(p, (legs - 1) as nat);
        let b = if (legs - 1) % 2 != 0 { mirror(p) } else { p };
        assert(games_in(mirror(p), nt));
        assert forall|i: int| 0 <= i < (a + b).len() implies (#[trigger] (a + b)[i]).len() >= 2 && 1 <= (a + b)[i][0] <= nt && 1 <= (a + b)[i][1] <= nt by {
            if i < a.len() {
                assert((a + b)[i] == a[i]);
            } else {
                assert((a + b)[i] == b[i - a.len()]);
            }
        }
    }
}

/// Every game of a schedule names two teams from `1..=nt`.
pub proof fn lemma_schedule_values(nt: nat, legs: nat)
    requires
        3 <= nt < u32::MAX,
    ensures
        games_in(schedule(nt, legs), nt),
{
    lemma_leg_values(nt, (places(nt) - 1) as nat);
    lemma_with_legs_values(leg_games(nt, (places(nt) - 1) as nat), legs, nt);
}

/// Reordering rounds keeps games naming teams from `1..=nt`.
pub proof fn lemma_reorder_values(p: Seq<Seq<u32>>, order: Seq<usize>, per_round: nat, nt: nat)
    requires
        games_in(p, nt),
        forall|i: int| 0 <= i < order.len() ==> (#[trigger] order[i]) * per_round + per_round <= p.len(),
    ensures
        games_in(reorder_rounds(p, order, per_round), nt),
    decreases order.len(),
{
    if order.len() > 0 {
        assert forall|i: int| 0 <= i < order.drop_last().len() implies (#[trigger] order.drop_last()[i]) * per_round + per_round <= p.len() by {
            assert(order.drop_last()[i] == order[i]);
        }
        lemma_reorder_values(p, order.drop_last(), per_round, nt);
        assert(order.last() == order[order.len() - 1]);
        let s = order.last() as int;
        let a = reorder_rounds(p, order.drop_last(), per_round);
        let b = p.subrange(s * per_round, s * per_round + per_round);
        assert forall|i: int| 0 <= i < (a + b).len() implies (#[trigger] (a + b)[i]).len() >= 2 && 1 <= (a + b)[i][0] <= nt && 1 <= (a + b)[i][1] <= nt by {
            if i < a.len() {
                assert((a + b)[i] == a[i]);
            } else {
                assert((a + b)[i] == b[i - a.len()]);
                assert(b[i - a.len()] == p[s * per_round + (i - a.len())]);
            }
        }
    }
}

/// The rounds of a schedule named by an order of its rounds lie within it.
pub proof fn lemma_order_blocks(nt: nat, legs: nat, order: Seq<usize>)
    requires
        3 <= nt < u32::MAX,
        is_order_of(order, ((places(nt) - 1) * legs) as nat),
    ensures
        forall|i: int| 0 <= i < order.len() ==> (#[trigger] order[i]) * games_per_round(nt) + games_per_round(nt) <= schedule(
            nt,
            legs,
        ).len(),
{
    let single = leg_games(nt, (places(nt) - 1) as nat);
    lemma_leg_games(nt, (places(nt) - 1) as nat);
    lemma_with_legs(single, legs);
    let pr = games_per_round(nt);
    let rounds = (places(nt) - 1) as nat;
    assert forall|i: int| 0 <= i < order.len() implies (#[trigger] order[i]) * pr + pr <= schedule(nt, legs).len() by {
        let s = order[i] as nat;
        assert(s < rounds * legs);
        assert(legs >= 1) by (nonlinear_arith)
            requires
                s < rounds * legs,
        ;
        assert(s * pr + pr <= rounds * legs * pr) by (nonlinear_arith)
            requires
                s + 1 <= rounds * legs,
        ;
        assert(rounds * legs * pr == legs * (rounds * pr)) by (nonlinear_arith);
        if legs == 1 {
            assert(rounds * 1 * pr == rounds * pr) by (nonlinear_arith);
        }
    }
}

} // verus!
