//! Fairness of the circle method: in one leg of a round robin schedule,
//! every two teams meet exactly once.
use vstd::prelude::*;
use crate::gen_pairing::{columns, dummy_of, leg_games, places, round_games};

verus! {

broadcast use vstd::arithmetic::div_mod::group_fundamental_div_mod_converse;

/// The place that starts at position `q` of the ring of moving places
/// (all places but 1): the first column from its second row down, then the
/// second column from its last row up.
pub open spec fn ring_start(n: nat, q: int) -> int {
    let g = (n / 2) as int;
    if q <= g - 2 {
        q + 2
    } else {
        3 * g - 1 - q
    }
}

/// The position of the ring at which place `x` (not 1) starts.
pub open spec fn ring_label(n: nat, x: int) -> int {
    let g = (n / 2) as int;
    if x <= g {
        x - 2
    } else {
        3 * g - 1 - x
    }
}

proof fn lemma_ring_inverse(n: nat)
    requires
        n >= 4,
        n % 2 == 0,
    ensures
        forall|q: int| 0 <= q < n - 1 ==> 2 <= #[trigger] ring_start(n, q) <= n && ring_label(n, ring_start(n, q)) == q,
        forall|x: int| 2 <= x <= n ==> 0 <= #[trigger] ring_label(n, x) < n - 1 && ring_start(n, ring_label(n, x)) == x,
{
}

/// Shifting by `r` around a ring of `m` positions, forwards and back.
proof fn lemma_shift(a: int, b: int, r: int, m: int)
    requires
        m > 0,
        0 <= a < m,
        0 <= b < m,
    ensures
        (a - r) % m == b <==> (b + r) % m == a,
{
    vstd::arithmetic::div_mod::lemma_fundamental_div_mod(a - r, m);
    vstd::arithmetic::div_mod::lemma_fundamental_div_mod(b + r, m);
    let q1 = (a - r) / m;
    let q2 = (b + r) / m;
    if (a - r) % m == b {
        assert(b + r == (-q1) * m + a) by (nonlinear_arith)
            requires
                a - r == m * q1 + b,
        ;
        vstd::arithmetic::div_mod::lemma_fundamental_div_mod_converse_mod(b + r, m, -q1, a);
    }
    if (b + r) % m == a {
        assert(a - r == (-q2) * m + b) by (nonlinear_arith)
            requires
                b + r == m * q2 + a,
        ;
        vstd::arithmetic::div_mod::lemma_fundamental_div_mod_converse_mod(a - r, m, -q2, b);
    }
}

/// The columns of round `r`: place 1 stays at the top of the first column;
/// the others have moved `r` positions along the ring.
pub proof fn lemma_columns_closed(n: nat, r: nat)
    requires
        n >= 4,
        n % 2 == 0,
        n <= u32::MAX,
    ensures
        columns(n, r).0.len() == n / 2,
        columns(n, r).1.len() == n / 2,
        columns(n, r).0[0] == 1,
        forall|i: int| 1 <= i < n / 2 ==> #[trigger] columns(n, r).0[i] as int == ring_start(n, (i - 1 - r) % (n - 1)),
        forall|i: int| 0 <= i < n / 2 ==> #[trigger] columns(n, r).1[i] as int == ring_start(n, (n - 2 - i - r) % (n - 1)),
    decreases r,
{
    let m = (n - 1) as int;
    let g = (n / 2) as int;
    if r == 0 {
        let c = columns(n, 0);
        assert forall|i: int| 1 <= i < n / 2 implies #[trigger] columns(n, r).0[i] as int == ring_start(n, (i - 1 - r) % (n - 1)) by {
            vstd::arithmetic::div_mod::lemma_small_mod((i - 1) as nat, m as nat);
        }
        assert forall|i: int| 0 <= i < n / 2 implies #[trigger] columns(n, r).1[i] as int == ring_start(n, (n - 2 - i - r) % (n - 1)) by {
            vstd::arithmetic::div_mod::lemma_small_mod((n - 2 - i) as nat, m as nat);
        }
    } else {
        lemma_columns_closed(n, (r - 1) as nat);
        let c = columns(n, (r - 1) as nat);
        let d = columns(n, r);
        assert(d == crate::gen_pairing::rotate(c));
        let a = c.0;
        let b = c.1;
        assert(d.0 == seq![1u32, b[0]] + a.subrange(1, a.len() - 1));
        assert(d.1 == b.subrange(1, b.len() as int).push(a.last()));
        assert forall|i: int| 1 <= i < n / 2 implies #[trigger] columns(n, r).0[i] as int == ring_start(n, (i - 1 - r) % (n - 1)) by {
            if i == 1 {
                assert(d.0[1] == b[0]);
                assert(b[0] as int == ring_start(n, (n - 2 - 0 - (r - 1)) % (n - 1)));
                vstd::arithmetic::div_mod::lemma_mod_add_multiples_vanish(i - 1 - r, m);
                assert(n - 2 - 0 - (r - 1) == m + (i - 1 - r));
            } else {
                assert(d.0[i] == a[i - 1]);
                assert(a[i - 1] as int == ring_start(n, (i - 1 - 1 - (r - 1)) % (n - 1)));
            }
        }
        assert forall|i: int| 0 <= i < n / 2 implies #[trigger] columns(n, r).1[i] as int == ring_start(n, (n - 2 - i - r) % (n - 1)) by {
            if i < g - 1 {
                assert(d.1[i] == b[i + 1]);
                assert(b[i + 1] as int == ring_start(n, (n - 2 - (i + 1) - (r - 1)) % (n - 1)));
            } else {
                assert(d.1[i] == a[g - 1]);
                assert(a[g - 1] as int == ring_start(n, (g - 1 - 1 - (r - 1)) % (n - 1)));
                assert(g - 1 - 1 - (r - 1) == n - 2 - i - r);
            }
        }
    }
}

/// The position of the ring at which place `x` (not 1) stands in round `r`.
pub open spec fn ring_pos(n: nat, x: int, r: int) -> int {
    (ring_label(n, x) + r) % (n - 1)
}

/// Place `x` (not 1) stands in the first column at row `ring_pos + 1`, or
/// in the second column at row `n - 2 - ring_pos`.
proof fn lemma_place_at(n: nat, r: nat, x: int)
    requires
        n >= 4,
        n % 2 == 0,
        n <= u32::MAX,
        2 <= x <= n,
    ensures
        0 <= ring_pos(n, x, r as int) < n - 1,
        ring_pos(n, x, r as int) <= n / 2 - 2 ==> columns(n, r).0[ring_pos(n, x, r as int) + 1] as int == x,
        ring_pos(n, x, r as int) > n / 2 - 2 ==> 0 <= n - 2 - ring_pos(n, x, r as int) < n / 2
            && columns(n, r).1[n - 2 - ring_pos(n, x, r as int)] as int == x,
{
    let m = (n - 1) as int;
    let p = ring_pos(n, x, r as int);
    lemma_ring_inverse(n);
    lemma_columns_closed(n, r);
    let l = ring_label(n, x);
    lemma_shift(p, l, r as int, m);
    if p <= n / 2 - 2 {
        assert(columns(n, r).0[p + 1] as int == ring_start(n, (p + 1 - 1 - r) % (n - 1)));
    } else {
        let i = n - 2 - p;
        assert(columns(n, r).1[i] as int == ring_start(n, (n - 2 - i - r) % (n - 1)));
    }
}

/// Where a place (not 1) stands tells its position of the ring.
proof fn lemma_place_found(n: nat, r: nat, x: int, i: int)
    requires
        n >= 4,
        n % 2 == 0,
        n <= u32::MAX,
        2 <= x <= n,
        0 <= i < n / 2,
    ensures
        1 <= i && columns(n, r).0[i] as int == x ==> ring_pos(n, x, r as int) == i - 1,
        columns(n, r).1[i] as int == x ==> ring_pos(n, x, r as int) == n - 2 - i,
        columns(n, r).0[i] as int == 1 ==> i == 0,
        columns(n, r).1[i] as int != 1,
{
    let m = (n - 1) as int;
    lemma_ring_inverse(n);
    lemma_columns_closed(n, r);
    let l = ring_label(n, x);
    if 1 <= i {
        let q = (i - 1 - r) % m;
        assert(columns(n, r).0[i] as int == ring_start(n, q));
        if columns(n, r).0[i] as int == x {
            assert(ring_label(n, ring_start(n, q)) == q);
            lemma_shift(i - 1, l, r as int, m);
        }
    }
    let q2 = (n - 2 - i - r) % m;
    assert(columns(n, r).1[i] as int == ring_start(n, q2));
    if columns(n, r).1[i] as int == x {
        assert(ring_label(n, ring_start(n, q2)) == q2);
        lemma_shift(n - 2 - i, l, r as int, m);
    }
}

/// Row `i` of `c` pairs `x` and `y`.
pub open spec fn pair_at(c: (Seq<u32>, Seq<u32>), i: int, x: int, y: int) -> bool {
    (c.0[i] as int == x && c.1[i] as int == y) || (c.0[i] as int == y && c.1[i] as int == x)
}

/// Places `x` and `y` meet in round `r`.
pub open spec fn meet_in(n: nat, r: nat, x: int, y: int) -> bool {
    exists|i: int| 0 <= i < n / 2 && #[trigger] pair_at(columns(n, r), i, x, y)
}

/// Two positions of a ring of `m` that are equal after the same shift are equal.
proof fn lemma_shift_unique(a: int, b: int, r: int, m: int)
    requires
        m > 0,
        0 <= a < m,
        0 <= b < m,
        (a + r) % m == (b + r) % m,
    ensures
        a == b,
{
    vstd::arithmetic::div_mod::lemma_fundamental_div_mod(a + r, m);
    vstd::arithmetic::div_mod::lemma_fundamental_div_mod(b + r, m);
    let qa = (a + r) / m;
    let qb = (b + r) / m;
    assert(a - b == m * (qa - qb)) by (nonlinear_arith)
        requires
            a + r == m * qa + (a + r) % m,
            b + r == m * qb + (b + r) % m,
            (a + r) % m == (b + r) % m,
    ;
    assert(-1 < qa - qb < 1) by (nonlinear_arith)
        requires
            a - b == m * (qa - qb),
            -m < a - b < m,
            m > 0,
    ;
}

/// Doubling is one to one on a ring of odd length.
proof fn lemma_double_unique(c: int, r1: int, r2: int, m: int)
    requires
        m >= 3,
        m % 2 == 1,
        0 <= r1 < m,
        0 <= r2 < m,
        (c + 2 * r1) % m == (c + 2 * r2) % m,
    ensures
        r1 == r2,
{
    vstd::arithmetic::div_mod::lemma_fundamental_div_mod(c + 2 * r1, m);
    vstd::arithmetic::div_mod::lemma_fundamental_div_mod(c + 2 * r2, m);
    let q1 = (c + 2 * r1) / m;
    let q2 = (c + 2 * r2) / m;
    let k = q1 - q2;
    let d = r1 - r2;
    assert(2 * d == m * k) by (nonlinear_arith)
        requires
            c + 2 * r1 == m * q1 + (c + 2 * r1) % m,
            c + 2 * r2 == m * q2 + (c + 2 * r2) % m,
            (c + 2 * r1) % m == (c + 2 * r2) % m,
            k == q1 - q2,
            d == r1 - r2,
    ;
    assert(-2 < k < 2) by (nonlinear_arith)
        requires
            2 * d == m * k,
            -m < d < m,
            m > 0,
    ;
    if k == 1 {
        assert(m == 2 * d) by (nonlinear_arith)
            requires
                2 * d == m * k,
                k == 1,
        ;
    } else if k == -1 {
        assert(m == -2 * d) by (nonlinear_arith)
            requires
                2 * d == m * k,
                k == -1,
        ;
    } else {
        assert(k == 0);
        assert(d == 0) by (nonlinear_arith)
            requires
                2 * d == m * k,
                k == 0,
        ;
    }
}

/// On a ring of odd length, doubling reaches every position.
proof fn lemma_double_onto(c: int, t: int, m: int)
    requires
        m >= 3,
        m % 2 == 1,
        0 <= t < m,
    ensures
        exists|r: int| 0 <= r < m && #[trigger] ((c + 2 * r) % m) == t,
{
    let s = Seq::new(m as nat, |r: int| ((c + 2 * r) % m) as nat);
    assert forall|i: int| 0 <= i < s.len() implies #[trigger] s[i] < m by {}
    assert forall|i: int, j: int| 0 <= i < s.len() && 0 <= j < s.len() && i != j implies s[i] != s[j] by {
        if s[i] == s[j] {
            lemma_double_unique(c, i, j, m);
        }
    }
    assert(s.no_duplicates());
    crate::assemble::lemma_onto(s, m as nat, t as nat);
    let r = choose|r: int| 0 <= r < m && s[r] == t;
    assert((c + 2 * r) % m == t);
}

proof fn lemma_mod_small_sum(x: int, m: int)
    requires
        m > 0,
        0 <= x < 2 * m,
    ensures
        x < m ==> x % m == x,
        x >= m ==> x % m == x - m,
{
    if x < m {
        vstd::arithmetic::div_mod::lemma_fundamental_div_mod_converse_mod(x, m, 0, x);
    } else {
        vstd::arithmetic::div_mod::lemma_fundamental_div_mod_converse_mod(x, m, 1, x - m);
    }
}

/// Two places other than 1 meet in round `r` exactly when their positions
/// of the ring add up to `n - 3`, the sum that every row but the first pairs.
proof fn lemma_meet_iff(n: nat, r: nat, x: int, y: int)
    requires
        n >= 4,
        n % 2 == 0,
        n <= u32::MAX,
        2 <= x <= n,
        2 <= y <= n,
        x != y,
    ensures
        meet_in(n, r, x, y) <==> (ring_label(n, x) + ring_label(n, y) + 2 * r) % (n - 1) == n - 3,
{
    let m = (n - 1) as int;
    let g = (n / 2) as int;
    let lx = ring_label(n, x);
    let ly = ring_label(n, y);
    let p1 = ring_pos(n, x, r as int);
    let p2 = ring_pos(n, y, r as int);
    lemma_ring_inverse(n);
    lemma_columns_closed(n, r);
    lemma_place_at(n, r, x);
    lemma_place_at(n, r, y);
    vstd::arithmetic::div_mod::lemma_add_mod_noop(lx + r, ly + r, m);
    assert(lx + r + (ly + r) == lx + ly + 2 * r);
    lemma_mod_small_sum(p1 + p2, m);
    if meet_in(n, r, x, y) {
        let i = choose|i: int| 0 <= i < n / 2 && #[trigger] pair_at(columns(n, r), i, x, y);
        lemma_place_found(n, r, x, i);
        lemma_place_found(n, r, y, i);
        assert(i != 0);
        assert(p1 + p2 == m - 2);
    }
    if (lx + ly + 2 * r) % m == m - 2 {
        if p1 + p2 >= m {
            assert(p1 == m - 1 && p2 == m - 1);
            lemma_shift_unique(lx, ly, r as int, m);
            assert(false);
        }
        assert(p1 + p2 == m - 2);
        if p1 <= g - 2 {
            assert(pair_at(columns(n, r), p1 + 1, x, y));
        } else {
            assert(pair_at(columns(n, r), p2 + 1, x, y));
        }
    }
}

/// Place 1 meets place `y` in round `r` exactly when `y` stands at the last
/// position of the ring, the top of the second column.
proof fn lemma_meet_one(n: nat, r: nat, y: int)
    requires
        n >= 4,
        n % 2 == 0,
        n <= u32::MAX,
        2 <= y <= n,
    ensures
        meet_in(n, r, 1, y) <==> ring_pos(n, y, r as int) == n - 2,
{
    lemma_columns_closed(n, r);
    lemma_place_at(n, r, y);
    if meet_in(n, r, 1, y) {
        let i = choose|i: int| 0 <= i < n / 2 && #[trigger] pair_at(columns(n, r), i, 1, y);
        lemma_place_found(n, r, y, i);
    }
    if ring_pos(n, y, r as int) == n - 2 {
        assert(pair_at(columns(n, r), 0, 1, y));
    }
}

/// Every two places meet in exactly one round of a leg.
pub proof fn lemma_meet_once(n: nat, x: int, y: int)
    requires
        n >= 4,
        n % 2 == 0,
        n <= u32::MAX,
        1 <= x < y <= n,
    ensures
        exists|r: nat| r < n - 1 && #[trigger] meet_in(n, r, x, y),
        forall|r1: nat, r2: nat| r1 < n - 1 && r2 < n - 1 && #[trigger] meet_in(n, r1, x, y) && #[trigger] meet_in(n, r2, x, y)
            ==> r1 == r2,
{
    let m = (n - 1) as int;
    lemma_ring_inverse(n);
    let ly = ring_label(n, y);
    if x == 1 {
        let r = (m - 1 - ly) as nat;
        vstd::arithmetic::div_mod::lemma_small_mod((m - 1) as nat, m as nat);
        assert(ly + r == m - 1);
        lemma_meet_one(n, r, y);
        assert(meet_in(n, r, x, y));
        assert forall|r1: nat, r2: nat| r1 < n - 1 && r2 < n - 1 && #[trigger] meet_in(n, r1, x, y) && #[trigger] meet_in(n, r2, x, y)
            implies r1 == r2 by {
            lemma_meet_one(n, r1, y);
            lemma_meet_one(n, r2, y);
            lemma_shift_unique(r1 as int, r2 as int, ly, m);
        }
    } else {
        let lx = ring_label(n, x);
        lemma_double_onto(lx + ly, m - 2, m);
        let r = choose|r: int| 0 <= r < m && #[trigger] ((lx + ly + 2 * r) % m) == m - 2;
        lemma_meet_iff(n, r as nat, x, y);
        assert(meet_in(n, r as nat, x, y));
        assert forall|r1: nat, r2: nat| r1 < n - 1 && r2 < n - 1 && #[trigger] meet_in(n, r1, x, y) && #[trigger] meet_in(n, r2, x, y)
            implies r1 == r2 by {
            lemma_meet_iff(n, r1, x, y);
            lemma_meet_iff(n, r2, x, y);
            lemma_double_unique(lx + ly, r1 as int, r2 as int, m);
        }
    }
}

/// Row `i` of the columns as a game.
pub open spec fn row_game(c: (Seq<u32>, Seq<u32>), i: int) -> Seq<u32> {
    seq![c.0[i], c.1[i]]
}

/// Row `i` has no dummy.
pub open spec fn row_played(c: (Seq<u32>, Seq<u32>), d: nat, i: int) -> bool {
    c.0[i] != d && c.1[i] != d
}

/// The row from which game `j` of the first `k` rows comes.
pub open spec fn row_origin(c: (Seq<u32>, Seq<u32>), d: nat, k: nat, j: int) -> int
    decreases k,
{
    if k == 0 {
        0
    } else if j < round_games(c, d, (k - 1) as nat).len() {
        row_origin(c, d, (k - 1) as nat, j)
    } else {
        k - 1
    }
}

proof fn lemma_row_origin(c: (Seq<u32>, Seq<u32>), d: nat, k: nat, j: int)
    requires
        0 <= j < round_games(c, d, k).len(),
    ensures
        0 <= row_origin(c, d, k, j) < k,
        row_played(c, d, row_origin(c, d, k, j)),
        round_games(c, d, k)[j] == row_game(c, row_origin(c, d, k, j)),
    decreases k,
{
    let rest = round_games(c, d, (k - 1) as nat);
    if j < rest.len() {
        lemma_row_origin(c, d, (k - 1) as nat, j);
        assert(round_games(c, d, k)[j] == rest[j]);
    }
}

proof fn lemma_row_origin_increasing(c: (Seq<u32>, Seq<u32>), d: nat, k: nat, j1: int, j2: int)
    requires
        0 <= j1 < j2 < round_games(c, d, k).len(),
    ensures
        row_origin(c, d, k, j1) < row_origin(c, d, k, j2),
    decreases k,
{
    let rest = round_games(c, d, (k - 1) as nat);
    if j2 < rest.len() {
        lemma_row_origin_increasing(c, d, (k - 1) as nat, j1, j2);
    } else {
        lemma_row_origin(c, d, (k - 1) as nat, j1);
    }
}

proof fn lemma_round_games_prefix(c: (Seq<u32>, Seq<u32>), d: nat, k1: nat, k2: nat, j: int)
    requires
        k1 <= k2,
        0 <= j < round_games(c, d, k1).len(),
    ensures
        round_games(c, d, k1).len() <= round_games(c, d, k2).len(),
        round_games(c, d, k2)[j] == round_games(c, d, k1)[j],
    decreases k2,
{
    if k1 < k2 {
        lemma_round_games_prefix(c, d, k1, (k2 - 1) as nat, j);
        assert(round_games(c, d, k2)[j] == round_games(c, d, (k2 - 1) as nat)[j]);
    }
}

/// A played row is a game of the round.
proof fn lemma_row_present(c: (Seq<u32>, Seq<u32>), d: nat, k: nat, i: int)
    requires
        0 <= i < k,
        row_played(c, d, i),
    ensures
        round_games(c, d, i as nat).len() < round_games(c, d, k).len(),
        round_games(c, d, k)[round_games(c, d, i as nat).len() as int] == row_game(c, i),
{
    let j = round_games(c, d, i as nat).len() as int;
    assert(round_games(c, d, (i + 1) as nat)[j] == row_game(c, i));
    lemma_round_games_prefix(c, d, (i + 1) as nat, k, j);
}

/// The games of round `r` of a leg.
pub open spec fn round_of(nt: nat, r: int) -> Seq<Seq<u32>> {
    round_games(columns(places(nt), r as nat), dummy_of(nt), places(nt) / 2)
}

/// The round, and the game within it, from which game `k` of the first
/// `big_r` rounds of a leg comes.
pub open spec fn leg_origin(nt: nat, big_r: nat, k: int) -> (int, int)
    decreases big_r,
{
    if big_r == 0 {
        (0, 0)
    } else if k < leg_games(nt, (big_r - 1) as nat).len() {
        leg_origin(nt, (big_r - 1) as nat, k)
    } else {
        (big_r - 1, k - leg_games(nt, (big_r - 1) as nat).len())
    }
}

proof fn lemma_leg_origin(nt: nat, big_r: nat, k: int)
    requires
        0 <= k < leg_games(nt, big_r).len(),
    ensures
        0 <= leg_origin(nt, big_r, k).0 < big_r,
        0 <= leg_origin(nt, big_r, k).1 < round_of(nt, leg_origin(nt, big_r, k).0).len(),
        leg_games(nt, big_r)[k] == round_of(nt, leg_origin(nt, big_r, k).0)[leg_origin(nt, big_r, k).1],
    decreases big_r,
{
    let a = leg_games(nt, (big_r - 1) as nat);
    let b = round_of(nt, big_r - 1);
    assert(leg_games(nt, big_r) == a + b);
    if k < a.len() {
        lemma_leg_origin(nt, (big_r - 1) as nat, k);
    }
}

proof fn lemma_leg_origin_increasing(nt: nat, big_r: nat, k1: int, k2: int)
    requires
        0 <= k1 < k2 < leg_games(nt, big_r).len(),
    ensures
        leg_origin(nt, big_r, k1).0 < leg_origin(nt, big_r, k2).0 || (leg_origin(nt, big_r, k1).0 == leg_origin(nt, big_r, k2).0
            && leg_origin(nt, big_r, k1).1 < leg_origin(nt, big_r, k2).1),
    decreases big_r,
{
    let a = leg_games(nt, (big_r - 1) as nat);
    let b = round_of(nt, big_r - 1);
    assert(leg_games(nt, big_r) == a + b);
    if k2 < a.len() {
        lemma_leg_origin_increasing(nt, (big_r - 1) as nat, k1, k2);
    } else if k1 < a.len() {
        lemma_leg_origin(nt, (big_r - 1) as nat, k1);
    }
}

proof fn lemma_leg_prefix(nt: nat, r1: nat, r2: nat, k: int)
    requires
        r1 <= r2,
        0 <= k < leg_games(nt, r1).len(),
    ensures
        leg_games(nt, r1).len() <= leg_games(nt, r2).len(),
        leg_games(nt, r2)[k] == leg_games(nt, r1)[k],
    decreases r2,
{
    if r1 < r2 {
        lemma_leg_prefix(nt, r1, (r2 - 1) as nat, k);
        let a = leg_games(nt, (r2 - 1) as nat);
        assert(leg_games(nt, r2) == a + round_of(nt, r2 - 1));
    }
}

/// Every game of round `r` is a game of the leg.
proof fn lemma_leg_present(nt: nat, big_r: nat, r: int, j: int)
    requires
        0 <= r < big_r,
        0 <= j < round_of(nt, r).len(),
    ensures
        leg_games(nt, r as nat).len() + j < leg_games(nt, big_r).len(),
        leg_games(nt, big_r)[leg_games(nt, r as nat).len() + j] == round_of(nt, r)[j],
{
    let a = leg_games(nt, r as nat);
    assert(leg_games(nt, (r + 1) as nat) == a + round_of(nt, r));
    assert(leg_games(nt, (r + 1) as nat)[a.len() + j] == round_of(nt, r)[j]);
    lemma_leg_prefix(nt, (r + 1) as nat, big_r, a.len() + j);
}

/// One leg of the round robin schedule for `nt` teams.
pub open spec fn one_leg(nt: nat) -> Seq<Seq<u32>> {
    leg_games(nt, (places(nt) - 1) as nat)
}

/// The two games are between the same two teams.
pub open spec fn same_teams(a: Seq<u32>, b: Seq<u32>) -> bool {
    (a[0] == b[0] && a[1] == b[1]) || (a[0] == b[1] && a[1] == b[0])
}

/// The two games have a team in common.
pub open spec fn share_team(a: Seq<u32>, b: Seq<u32>) -> bool {
    a[0] == b[0] || a[0] == b[1] || a[1] == b[0] || a[1] == b[1]
}

/// Teams `x` and `y` play each other in the games `p`.
pub open spec fn plays(p: Seq<Seq<u32>>, x: u32, y: u32) -> bool {
    exists|k: int| 0 <= k < p.len() && same_teams(#[trigger] p[k], seq![x, y])
}

/// Two rows of the same round have no team in common.
proof fn lemma_rows_disjoint(n: nat, r: nat, i1: int, i2: int)
    requires
        n >= 4,
        n % 2 == 0,
        n <= u32::MAX,
        0 <= i1 < n / 2,
        0 <= i2 < n / 2,
        i1 != i2,
    ensures
        !share_team(row_game(columns(n, r), i1), row_game(columns(n, r), i2)),
{
    crate::gen_pairing::lemma_columns_wf(n, r);
    let c = columns(n, r);
    let s = c.0 + c.1;
    let g = (n / 2) as int;
    assert(s[i1] == c.0[i1] && s[g + i1] == c.1[i1]);
    assert(s[i2] == c.0[i2] && s[g + i2] == c.1[i2]);
}

/// The two places of a row are distinct places of the schedule.
proof fn lemma_row_values(n: nat, r: nat, i: int)
    requires
        n >= 4,
        n % 2 == 0,
        n <= u32::MAX,
        0 <= i < n / 2,
    ensures
        columns(n, r).0[i] != columns(n, r).1[i],
        1 <= columns(n, r).0[i] <= n,
        1 <= columns(n, r).1[i] <= n,
{
    crate::gen_pairing::lemma_columns_wf(n, r);
    let c = columns(n, r);
    let s = c.0 + c.1;
    let g = (n / 2) as int;
    assert(s[i] == c.0[i] && s[g + i] == c.1[i]);
}

/// In each round of a leg no team plays twice.
pub proof fn lemma_round_disjoint(nt: nat, r: nat, j1: int, j2: int)
    requires
        3 <= nt < u32::MAX,
        0 <= j1 < j2 < round_of(nt, r as int).len(),
    ensures
        !share_team(round_of(nt, r as int)[j1], round_of(nt, r as int)[j2]),
{
    let n = places(nt);
    let c = columns(n, r);
    let d = dummy_of(nt);
    lemma_row_origin(c, d, n / 2, j1);
    lemma_row_origin(c, d, n / 2, j2);
    lemma_row_origin_increasing(c, d, n / 2, j1, j2);
    lemma_rows_disjoint(n, r, row_origin(c, d, n / 2, j1), row_origin(c, d, n / 2, j2));
}

/// In one leg of a round robin schedule, every two teams play each other,
/// and no two games are between the same teams: every team meets every
/// other team exactly once.
pub proof fn lemma_leg_fair(nt: nat)
    requires
        3 <= nt < u32::MAX,
    ensures
        forall|x: u32, y: u32| 1 <= x < y <= nt ==> #[trigger] plays(one_leg(nt), x, y),
        forall|k1: int, k2: int| 0 <= k1 < k2 < one_leg(nt).len() ==> !same_teams(#[trigger] one_leg(nt)[k1], #[trigger] one_leg(nt)[k2]),
{
    let n = places(nt);
    let m = (n - 1) as nat;
    let d = dummy_of(nt);
    let g = n / 2;
    let p = one_leg(nt);
    assert forall|x: u32, y: u32| 1 <= x < y <= nt implies #[trigger] plays(p, x, y) by {
        lemma_meet_once(n, x as int, y as int);
        let r = choose|r: nat| r < n - 1 && #[trigger] meet_in(n, r, x as int, y as int);
        let c = columns(n, r);
        let i = choose|i: int| 0 <= i < n / 2 && #[trigger] pair_at(c, i, x as int, y as int);
        assert(row_played(c, d, i));
        lemma_row_present(c, d, g, i);
        let j = round_games(c, d, i as nat).len() as int;
        lemma_leg_present(nt, m, r as int, j);
        let k = leg_games(nt, r).len() + j;
        assert(p[k] == row_game(c, i));
        assert(same_teams(p[k], seq![x, y]));
    }
    assert forall|k1: int, k2: int| 0 <= k1 < k2 < p.len() implies !same_teams(#[trigger] p[k1], #[trigger] p[k2]) by {
        lemma_leg_origin(nt, m, k1);
        lemma_leg_origin(nt, m, k2);
        lemma_leg_origin_increasing(nt, m, k1, k2);
        let (r1, j1) = leg_origin(nt, m, k1);
        let (r2, j2) = leg_origin(nt, m, k2);
        let c1 = columns(n, r1 as nat);
        let c2 = columns(n, r2 as nat);
        lemma_row_origin(c1, d, g, j1);
        lemma_row_origin(c2, d, g, j2);
        let i1 = row_origin(c1, d, g, j1);
        let i2 = row_origin(c2, d, g, j2);
        if r1 == r2 {
            lemma_row_origin_increasing(c1, d, g, j1, j2);
            lemma_rows_disjoint(n, r1 as nat, i1, i2);
        } else {
            lemma_row_values(n, r1 as nat, i1);
            let u = c1.0[i1];
            let v = c1.1[i1];
            if same_teams(p[k1], p[k2]) {
                let x = if u < v { u } else { v };
                let y = if u < v { v } else { u };
                assert(pair_at(c1, i1, x as int, y as int));
                assert(pair_at(c2, i2, x as int, y as int));
                assert(meet_in(n, r1 as nat, x as int, y as int));
                assert(meet_in(n, r2 as nat, x as int, y as int));
                lemma_meet_once(n, x as int, y as int);
            }
        }
    }
}

} // verus!
