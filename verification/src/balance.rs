//! Balance of a counted table: every goal that a pairing counts is scored by
//! one team of the table and conceded by another, overall and head to head,
//! and the points a pairing gives are those of its outcome.
use vstd::prelude::*;
use crate::common::MatchWinner;
use crate::result::{
    PairingResult, RoundStats, stats_updated, line_counted, is_first_line, has_line, sum_over, gf_f, ga_f,
    points_f, points_won, opt_val, vs_get, vs_gf_f, vs_ga_f,
};

verus! {

/// A column of the table (goals scored, goals conceded or points), summed
/// over all lines.
pub open spec fn column_total(s: Seq<RoundStats>, col: spec_fn(RoundStats) -> nat) -> nat
    decreases s.len(),
{
    if s.len() == 0 {
        0
    } else {
        column_total(s.drop_last(), col) + col(s.last())
    }
}

/// Goals scored, summed over all lines of the table.
pub open spec fn goals_for_total(s: Seq<RoundStats>) -> nat {
    column_total(s, |r: RoundStats| r.goals_for as nat)
}

/// Goals conceded, summed over all lines of the table.
pub open spec fn goals_against_total(s: Seq<RoundStats>) -> nat {
    column_total(s, |r: RoundStats| r.goals_against as nat)
}

/// Points, summed over all lines of the table.
pub open spec fn points_total(s: Seq<RoundStats>) -> nat {
    column_total(s, |r: RoundStats| r.points as nat)
}

/// The points that the outcome of a pairing gives: the winner's points for
/// a win, each side's for a draw, none while it is open.
pub open spec fn points_awarded(p: PairingResult, pfw: nat, pfd: nat) -> nat {
    match p.winner {
        Some(MatchWinner::Draw) => 2 * pfd,
        Some(_) => pfw,
        None => 0,
    }
}

/// Goals of both teams, per pairing.
pub open spec fn pairing_goals_f() -> spec_fn(PairingResult) -> nat {
    |p: PairingResult| p.spec_total_goals().0 + p.spec_total_goals().1
}

/// Points awarded, per pairing.
pub open spec fn awarded_f(pfw: nat, pfd: nat) -> spec_fn(PairingResult) -> nat {
    |p: PairingResult| points_awarded(p, pfw, pfd)
}

/// What the first lines of the teams gain in pairing `p`, where a team `t`
/// gains `gain(t)(p)`.
spec fn gained_in(s: Seq<RoundStats>, p: PairingResult, gain: spec_fn(usize) -> spec_fn(PairingResult) -> nat) -> nat
    decreases s.len(),
{
    if s.len() == 0 {
        0
    } else {
        gained_in(s.drop_last(), p, gain) + if is_first_line(s, s.len() - 1) { gain(s.last().team)(p) } else { 0 }
    }
}

/// What the first lines of the teams gain in the pairings `ps`.
spec fn gained_table(s: Seq<RoundStats>, ps: Seq<PairingResult>, gain: spec_fn(usize) -> spec_fn(PairingResult) -> nat) -> nat
    decreases s.len(),
{
    if s.len() == 0 {
        0
    } else {
        gained_table(s.drop_last(), ps, gain) + if is_first_line(s, s.len() - 1) {
            sum_over(ps, gain(s.last().team))
        } else {
            0
        }
    }
}

/// What the first lines gain per pairing.
spec fn gained_in_f(s: Seq<RoundStats>, gain: spec_fn(usize) -> spec_fn(PairingResult) -> nat) -> spec_fn(PairingResult) -> nat {
    |p: PairingResult| gained_in(s, p, gain)
}

/// Whether a line is the first of its team depends on the lines before it.
proof fn lemma_first_line_prefix(s: Seq<RoundStats>, i: int)
    requires
        0 <= i < s.len() - 1,
    ensures
        is_first_line(s.drop_last(), i) == is_first_line(s, i),
{
    let d = s.drop_last();
    assert(d[i] == s[i]);
    if is_first_line(s, i) {
        assert forall|j: int| 0 <= j < i implies d[j].team != d[i].team by {
            assert(d[j] == s[j]);
        }
    }
    if is_first_line(d, i) {
        assert forall|j: int| 0 <= j < i implies s[j].team != s[i].team by {
            assert(d[j] == s[j]);
        }
    }
}

/// A team has a line in the table iff it has one before the last line or
/// the last line is its own.
proof fn lemma_has_line_last(s: Seq<RoundStats>, t: usize)
    requires
        s.len() > 0,
    ensures
        has_line(s, t) == (has_line(s.drop_last(), t) || s.last().team == t),
{
    let d = s.drop_last();
    if has_line(s, t) && s.last().team != t {
        let i = choose|i: int| 0 <= i < s.len() && s[i].team == t;
        assert(i < s.len() - 1);
        assert(d[i].team == t);
    }
    if has_line(d, t) {
        let i = choose|i: int| 0 <= i < d.len() && d[i].team == t;
        assert(s[i].team == t);
    }
    if s.last().team == t {
        assert(s[s.len() - 1].team == t);
    }
}

/// Where a pairing gives `x` to its first team and `y` to its second, the
/// first lines gain `x` if the first team has a line and `y` if the second
/// has one.
proof fn lemma_gained_in_sides(
    s: Seq<RoundStats>,
    p: PairingResult,
    gain: spec_fn(usize) -> spec_fn(PairingResult) -> nat,
    x: nat,
    y: nat,
)
    requires
        forall|t: usize| #[trigger] gain(t)(p) == (if p.teams.0 == t { x } else { 0 }) + (if p.teams.1 == t { y } else { 0 }),
    ensures
        gained_in(s, p, gain) == (if has_line(s, p.teams.0) { x } else { 0 }) + (if has_line(s, p.teams.1) { y } else { 0 }),
    decreases s.len(),
{
    if s.len() > 0 {
        let d = s.drop_last();
        let n = s.len() - 1;
        let t = s.last().team;
        lemma_gained_in_sides(d, p, gain, x, y);
        lemma_has_line_last(s, p.teams.0);
        lemma_has_line_last(s, p.teams.1);
        assert(gain(t)(p) == (if p.teams.0 == t { x } else { 0 }) + (if p.teams.1 == t { y } else { 0 }));
        if is_first_line(s, n) {
            if has_line(d, t) {
                let i = choose|i: int| 0 <= i < d.len() && d[i].team == t;
                assert(s[i].team == s[n].team);
            }
        } else {
            let j = choose|j: int| 0 <= j < n && s[j].team == s[n].team;
            assert(d[j].team == t);
        }
    } else {
        assert(!has_line(s, p.teams.0));
        assert(!has_line(s, p.teams.1));
    }
}

/// Adding a pairing to the pairings adds what the first lines gain in it.
proof fn lemma_table_step(s: Seq<RoundStats>, ps: Seq<PairingResult>, gain: spec_fn(usize) -> spec_fn(PairingResult) -> nat)
    requires
        ps.len() > 0,
    ensures
        gained_table(s, ps, gain) == gained_table(s, ps.drop_last(), gain) + gained_in(s, ps.last(), gain),
    decreases s.len(),
{
    if s.len() > 0 {
        lemma_table_step(s.drop_last(), ps, gain);
    }
}

/// What the first lines gain in the pairings is, summed per pairing, what
/// they gain in each.
proof fn lemma_table_per_pairing(s: Seq<RoundStats>, ps: Seq<PairingResult>, gain: spec_fn(usize) -> spec_fn(PairingResult) -> nat)
    ensures
        gained_table(s, ps, gain) == sum_over(ps, gained_in_f(s, gain)),
    decreases ps.len(),
{
    if ps.len() == 0 {
        lemma_empty_table(s, ps, gain);
    } else {
        lemma_table_per_pairing(s, ps.drop_last(), gain);
        lemma_table_step(s, ps, gain);
    }
}

/// Over no pairings, the first lines gain nothing.
proof fn lemma_empty_table(s: Seq<RoundStats>, ps: Seq<PairingResult>, gain: spec_fn(usize) -> spec_fn(PairingResult) -> nat)
    requires
        ps.len() == 0,
    ensures
        gained_table(s, ps, gain) == 0,
    decreases s.len(),
{
    if s.len() > 0 {
        lemma_empty_table(s.drop_last(), ps, gain);
    }
}

/// Two sums over the same pairings of functions that agree on each of them
/// are equal.
proof fn lemma_sum_over_agree(ps: Seq<PairingResult>, f: spec_fn(PairingResult) -> nat, h: spec_fn(PairingResult) -> nat)
    requires
        forall|j: int| 0 <= j < ps.len() ==> f(#[trigger] ps[j]) == h(ps[j]),
    ensures
        sum_over(ps, f) == sum_over(ps, h),
    decreases ps.len(),
{
    if ps.len() > 0 {
        let d = ps.drop_last();
        assert forall|j: int| 0 <= j < d.len() implies f(#[trigger] d[j]) == h(d[j]) by {
            assert(d[j] == ps[j]);
        }
        lemma_sum_over_agree(d, f, h);
        assert(f(ps[ps.len() - 1]) == h(ps[ps.len() - 1]));
    }
}

/// A column of a counted table is the column before counting plus what the
/// first lines gain, where each first line gains in that column its team's
/// gain and other lines stay.
proof fn lemma_column_after(
    old: Seq<RoundStats>,
    new: Seq<RoundStats>,
    ps: Seq<PairingResult>,
    col: spec_fn(RoundStats) -> nat,
    gain: spec_fn(usize) -> spec_fn(PairingResult) -> nat,
)
    requires
        new.len() == old.len(),
        forall|i: int| 0 <= i < old.len() && is_first_line(old, i)
            ==> col(#[trigger] new[i]) == col(old[i]) + sum_over(ps, gain(old[i].team)),
        forall|i: int| 0 <= i < old.len() && !is_first_line(old, i) ==> col(#[trigger] new[i]) == col(old[i]),
    ensures
        column_total(new, col) == column_total(old, col) + gained_table(old, ps, gain),
    decreases old.len(),
{
    if old.len() > 0 {
        let n = old.len() - 1;
        let od = old.drop_last();
        let nd = new.drop_last();
        assert forall|i: int| 0 <= i < od.len() && is_first_line(od, i) implies col(#[trigger] nd[i]) == col(od[i])
            + sum_over(ps, gain(od[i].team)) by {
            lemma_first_line_prefix(old, i);
            assert(od[i] == old[i] && nd[i] == new[i]);
        }
        assert forall|i: int| 0 <= i < od.len() && !is_first_line(od, i) implies col(#[trigger] nd[i]) == col(od[i]) by {
            lemma_first_line_prefix(old, i);
            assert(od[i] == old[i] && nd[i] == new[i]);
        }
        lemma_column_after(od, nd, ps, col, gain);
        assert(col(new[n]) == col(old[n]) + (if is_first_line(old, n) { sum_over(ps, gain(old[n].team)) } else { 0 }));
    }
}

/// Counting the pairings of a round into its table adds as many goals
/// scored as goals conceded, over the whole table: both grow by all goals
/// of the pairings.
#[verifier::spinoff_prover]
#[verifier::rlimit(40)]
pub proof fn lemma_table_balanced(
    old: Seq<RoundStats>,
    new: Seq<RoundStats>,
    ps: Seq<PairingResult>,
    pfw: nat,
    pfd: nat,
)
    requires
        stats_updated(old, new, ps, pfw, pfd),
        forall|j: int| 0 <= j < ps.len() ==> has_line(old, (#[trigger] ps[j]).teams.0) && has_line(old, ps[j].teams.1),
    ensures
        goals_for_total(new) - goals_for_total(old) == goals_against_total(new) - goals_against_total(old),
        goals_for_total(new) == goals_for_total(old) + sum_over(ps, pairing_goals_f()),
        goals_against_total(new) == goals_against_total(old) + sum_over(ps, pairing_goals_f()),
{
    let gf = |t: usize| gf_f(t);
    let ga = |t: usize| ga_f(t);
    let cf = |r: RoundStats| r.goals_for as nat;
    let ca = |r: RoundStats| r.goals_against as nat;
    assert forall|i: int| 0 <= i < old.len() && is_first_line(old, i)
        implies cf(#[trigger] new[i]) == cf(old[i]) + sum_over(ps, gf(old[i].team))
            && ca(new[i]) == ca(old[i]) + sum_over(ps, ga(old[i].team)) by {
        assert(line_counted(old[i], new[i], ps, pfw, pfd));
    }
    assert forall|i: int| 0 <= i < old.len() && !is_first_line(old, i) implies cf(#[trigger] new[i]) == cf(old[i])
        && ca(new[i]) == ca(old[i]) by {
        assert(new[i] == old[i]);
    }
    lemma_column_after(old, new, ps, cf, gf);
    lemma_column_after(old, new, ps, ca, ga);
    lemma_table_per_pairing(old, ps, gf);
    lemma_table_per_pairing(old, ps, ga);
    assert forall|j: int| 0 <= j < ps.len() implies gained_in_f(old, gf)(#[trigger] ps[j]) == gained_in_f(old, ga)(ps[j]) by {
        let p = ps[j];
        let tg = p.spec_total_goals();
        lemma_gained_in_sides(old, p, gf, tg.0, tg.1);
        lemma_gained_in_sides(old, p, ga, tg.1, tg.0);
    }
    lemma_sum_over_agree(ps, gained_in_f(old, gf), gained_in_f(old, ga));
    assert forall|j: int| 0 <= j < ps.len() implies gained_in_f(old, gf)(#[trigger] ps[j]) == pairing_goals_f()(ps[j]) by {
        let p = ps[j];
        let tg = p.spec_total_goals();
        lemma_gained_in_sides(old, p, gf, tg.0, tg.1);
    }
    lemma_sum_over_agree(ps, gained_in_f(old, gf), pairing_goals_f());
}

/// Counting the pairings of a round into its table adds, per pairing, the
/// points of its outcome: the points for a win once, the points for a draw
/// twice.
#[verifier::spinoff_prover]
#[verifier::rlimit(40)]
pub proof fn lemma_points_awarded(
    old: Seq<RoundStats>,
    new: Seq<RoundStats>,
    ps: Seq<PairingResult>,
    pfw: nat,
    pfd: nat,
)
    requires
        stats_updated(old, new, ps, pfw, pfd),
        forall|j: int| 0 <= j < ps.len() ==> has_line(old, (#[trigger] ps[j]).teams.0) && has_line(old, ps[j].teams.1),
    ensures
        points_total(new) == points_total(old) + sum_over(ps, awarded_f(pfw, pfd)),
{
    let pg = |t: usize| points_f(t, pfw, pfd);
    let cp = |r: RoundStats| r.points as nat;
    assert forall|i: int| 0 <= i < old.len() && is_first_line(old, i)
        implies cp(#[trigger] new[i]) == cp(old[i]) + sum_over(ps, pg(old[i].team)) by {
        assert(line_counted(old[i], new[i], ps, pfw, pfd));
    }
    assert forall|i: int| 0 <= i < old.len() && !is_first_line(old, i) implies cp(#[trigger] new[i]) == cp(old[i]) by {
        assert(new[i] == old[i]);
    }
    lemma_column_after(old, new, ps, cp, pg);
    lemma_table_per_pairing(old, ps, pg);
    assert forall|j: int| 0 <= j < ps.len() implies gained_in_f(old, pg)(#[trigger] ps[j]) == awarded_f(pfw, pfd)(ps[j]) by {
        let p = ps[j];
        lemma_gained_in_sides(old, p, pg, opt_val(points_won(p, 0, pfw, pfd)), opt_val(points_won(p, 1, pfw, pfd)));
    }
    lemma_sum_over_agree(ps, gained_in_f(old, pg), awarded_f(pfw, pfd));
}

/// Over any pairings, the goals that team `t` scores against team `k` are
/// the goals that `k` concedes to `t`.
proof fn lemma_vs_goals_mirror(ps: Seq<PairingResult>, t: usize, k: usize)
    ensures
        sum_over(ps, vs_gf_f(t, k)) == sum_over(ps, vs_ga_f(k, t)),
    decreases ps.len(),
{
    if ps.len() > 0 {
        lemma_vs_goals_mirror(ps.drop_last(), t, k);
    }
}

/// Counting a round keeps head-to-head records consistent: where the goals
/// that one team had scored against another equalled the goals the other had
/// conceded to it, they still do after the pairings are counted (lines of
/// each team's first appearance in the table).
pub proof fn lemma_head_to_head_consistent(
    old: Seq<RoundStats>,
    new: Seq<RoundStats>,
    ps: Seq<PairingResult>,
    pfw: nat,
    pfd: nat,
    i: int,
    j: int,
)
    requires
        stats_updated(old, new, ps, pfw, pfd),
        0 <= i < old.len(),
        0 <= j < old.len(),
        is_first_line(old, i),
        is_first_line(old, j),
        vs_get(old[i].vs_goals_for@, old[j].team) == vs_get(old[j].vs_goals_against@, old[i].team),
    ensures
        new[i].team == old[i].team,
        new[j].team == old[j].team,
        vs_get(new[i].vs_goals_for@, new[j].team) == vs_get(new[j].vs_goals_against@, new[i].team),
{
    let t = old[i].team;
    let k = old[j].team;
    assert(line_counted(old[i], new[i], ps, pfw, pfd));
    assert(line_counted(old[j], new[j], ps, pfw, pfd));
    assert(vs_get(new[i].vs_goals_for@, k) == vs_get(old[i].vs_goals_for@, k) + sum_over(ps, vs_gf_f(t, k)));
    assert(vs_get(new[j].vs_goals_against@, t) == vs_get(old[j].vs_goals_against@, t) + sum_over(ps, vs_ga_f(k, t)));
    lemma_vs_goals_mirror(ps, t, k);
}

} // verus!
