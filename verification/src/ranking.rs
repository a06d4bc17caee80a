//! Ranking table lines: the comparisons that the criteria of a format define,
//! and a stable sort by them.
use vstd::prelude::*;
use crate::config::RankBy;
use crate::result::{RoundStats, vs_get, goal_diff_of, vs_goal_diff_of, line_bounded, map_get_or_zero};

verus! {

/// Sign of `a - b`: -1, 0 or 1.
pub open spec fn order_int(a: int, b: int) -> int {
    if a < b {
        -1
    } else if a > b {
        1
    } else {
        0
    }
}

/// Comparison of two lines by one criterion; negative when `x` ranks before
/// `y`. Criteria that do not rank (those that settle drawn pairings) compare
/// equal.
pub open spec fn crit_order(x: RoundStats, y: RoundStats, r: RankBy) -> int {
    match r {
        RankBy::Points => order_int(y.points as int, x.points as int),
        RankBy::GoalDiff => order_int(goal_diff_of(y), goal_diff_of(x)),
        RankBy::Goals => order_int(y.goals_for as int, x.goals_for as int),
        RankBy::VsPoints => order_int(vs_get(y.vs_points@, x.team) as int, vs_get(x.vs_points@, y.team) as int),
        RankBy::VsGoalDiff => order_int(vs_goal_diff_of(y, x.team), vs_goal_diff_of(x, y.team)),
        RankBy::VsGoals => order_int(vs_get(y.vs_goals_for@, x.team) as int, vs_get(x.vs_goals_for@, y.team) as int),
        _ => 0,
    }
}

/// Comparison of two lines by a list of criteria: the first criterion that
/// tells them apart decides.
pub open spec fn rank_order(x: RoundStats, y: RoundStats, rank_by: Seq<RankBy>) -> int
    decreases rank_by.len(),
{
    if rank_by.len() == 0 {
        0
    } else {
        let o = crit_order(x, y, rank_by[0]);
        if o != 0 {
            o
        } else {
            rank_order(x, y, rank_by.drop_first())
        }
    }
}

/// Comparison by points, then goal difference, then goals scored, all descending.
pub open spec fn totals_order(x: RoundStats, y: RoundStats) -> int {
    let o1 = order_int(y.points as int, x.points as int);
    let o2 = order_int(goal_diff_of(y), goal_diff_of(x));
    if o1 != 0 {
        o1
    } else if o2 != 0 {
        o2
    } else {
        order_int(y.goals_for as int, x.goals_for as int)
    }
}

/// The comparison a sort uses: by the criteria, or by the totals.
pub open spec fn stat_order(x: RoundStats, y: RoundStats, rank_by: Seq<RankBy>, totals: bool) -> int {
    if totals {
        totals_order(x, y)
    } else {
        rank_order(x, y, rank_by)
    }
}

/// On the lines `s`, the comparison is a total preorder: it is antisymmetric
/// and "not after" is transitive.
pub open spec fn total_preorder(s: Seq<RoundStats>, rank_by: Seq<RankBy>, totals: bool) -> bool {
    &&& forall|a: int, b: int|
        0 <= a < s.len() && 0 <= b < s.len() ==> #[trigger] stat_order(s[a], s[b], rank_by, totals) == -stat_order(
            s[b],
            s[a],
            rank_by,
            totals,
        )
    &&& forall|a: int, b: int, c: int|
        0 <= a < s.len() && 0 <= b < s.len() && 0 <= c < s.len() && #[trigger] stat_order(s[a], s[b], rank_by, totals)
            <= 0 && #[trigger] stat_order(s[b], s[c], rank_by, totals) <= 0 ==> stat_order(s[a], s[c], rank_by, totals) <= 0
}

/// `perm` maps positions of `new` to distinct positions of `old`, which holds
/// the same lines.
pub open spec fn is_permutation(old: Seq<RoundStats>, new: Seq<RoundStats>, perm: Seq<int>) -> bool {
    &&& perm.len() == new.len()
    &&& new.len() == old.len()
    &&& forall|k: int| 0 <= k < perm.len() ==> 0 <= #[trigger] perm[k] < old.len()
    &&& forall|k: int, l: int| 0 <= k < l < perm.len() ==> #[trigger] perm[k] != #[trigger] perm[l]
    &&& forall|k: int| 0 <= k < new.len() ==> #[trigger] new[k] == old[perm[k]]
}

/// No line of `s` comes after a line that ranks behind it.
pub open spec fn is_sorted(s: Seq<RoundStats>, rank_by: Seq<RankBy>, totals: bool) -> bool {
    forall|a: int, b: int| 0 <= a < b < s.len() ==> #[trigger] stat_order(s[b], s[a], rank_by, totals) != -1
}

/// Lines that rank equal keep the order they had.
pub open spec fn is_stable(s: Seq<RoundStats>, perm: Seq<int>, rank_by: Seq<RankBy>, totals: bool) -> bool {
    forall|a: int, b: int|
        0 <= a < b < s.len() && #[trigger] stat_order(s[a], s[b], rank_by, totals) == 0 ==> perm[a] < perm[b]
}

/// `new` is `old` sorted: a permutation of it which, whenever the comparison
/// is a total preorder on the lines, is sorted and keeps lines that rank
/// equal in their order (which fixes it).
pub open spec fn sorted_from(old: Seq<RoundStats>, new: Seq<RoundStats>, rank_by: Seq<RankBy>, totals: bool) -> bool {
    exists|perm: Seq<int>|
        {
            &&& #[trigger] is_permutation(old, new, perm)
            &&& total_preorder(old, rank_by, totals) ==> is_sorted(new, rank_by, totals) && is_stable(
                new,
                perm,
                rank_by,
                totals,
            )
        }
}

/// Every line of `s` is bounded.
pub open spec fn all_bounded(s: Seq<RoundStats>) -> bool {
    forall|i: int| 0 <= i < s.len() ==> line_bounded(#[trigger] s[i])
}

/// The goal counts that criterion `r` takes a difference of fit in `i32`.
pub open spec fn crit_bounded(s: RoundStats, r: RankBy) -> bool {
    &&& r == RankBy::GoalDiff ==> s.goals_for <= i32::MAX && s.goals_against <= i32::MAX
    &&& r == RankBy::VsGoalDiff ==> (forall|k: usize| vs_get(s.vs_goals_for@, k) <= i32::MAX)
        && (forall|k: usize| vs_get(s.vs_goals_against@, k) <= i32::MAX)
}

/// The goal counts that the comparison takes differences of (by the
/// criteria `rank_by`, or by the totals) fit in `i32`.
pub open spec fn bounded_for(s: RoundStats, rank_by: Seq<RankBy>, totals: bool) -> bool {
    if totals {
        crit_bounded(s, RankBy::GoalDiff)
    } else {
        forall|i: int| 0 <= i < rank_by.len() ==> crit_bounded(s, #[trigger] rank_by[i])
    }
}

/// Every line of `s` is bounded for the comparison.
pub open spec fn all_bounded_for(s: Seq<RoundStats>, rank_by: Seq<RankBy>, totals: bool) -> bool {
    forall|i: int| 0 <= i < s.len() ==> bounded_for(#[trigger] s[i], rank_by, totals)
}

/// Bounded lines are bounded for any comparison.
pub proof fn lemma_bounded_for(s: Seq<RoundStats>, rank_by: Seq<RankBy>, totals: bool)
    requires
        all_bounded(s),
    ensures
        all_bounded_for(s, rank_by, totals),
{
    assert forall|i: int| 0 <= i < s.len() implies bounded_for(#[trigger] s[i], rank_by, totals) by {
        assert(line_bounded(s[i]));
    }
}

fn order_u32(a: u32, b: u32) -> (res: i8)
    ensures
        res == order_int(a as int, b as int),
{
    if a < b {
        -1
    } else if a > b {
        1
    } else {
        0
    }
}

fn order_i32(a: i32, b: i32) -> (res: i8)
    ensures
        res == order_int(a as int, b as int),
{
    if a < b {
        -1
    } else if a > b {
        1
    } else {
        0
    }
}

fn crit_compare(x: &RoundStats, y: &RoundStats, r: RankBy) -> (res: i8)
    requires
        crit_bounded(*x, r),
        crit_bounded(*y, r),
    ensures
        res == crit_order(*x, *y, r),
{
    match r {
        RankBy::Points => order_u32(y.points, x.points),
        RankBy::GoalDiff => order_i32(y.goal_diff(), x.goal_diff()),
        RankBy::Goals => order_u32(y.goals_for, x.goals_for),
        RankBy::VsPoints => order_u32(map_get_or_zero(&y.vs_points, x.team), map_get_or_zero(&x.vs_points, y.team)),
        RankBy::VsGoalDiff => order_i32(y.vs_goal_diff(x.team), x.vs_goal_diff(y.team)),
        RankBy::VsGoals => order_u32(map_get_or_zero(&y.vs_goals_for, x.team), map_get_or_zero(&x.vs_goals_for, y.team)),
        _ => 0,
    }
}

/// Compares two lines: negative when `x` ranks before `y`.
pub fn compare_stats(x: &RoundStats, y: &RoundStats, rank_by: &Vec<RankBy>, totals: bool) -> (res: i8)
    requires
        bounded_for(*x, rank_by@, totals),
        bounded_for(*y, rank_by@, totals),
    ensures
        res == stat_order(*x, *y, rank_by@, totals),
{
    if totals {
        let o1 = order_u32(y.points, x.points);
        if o1 != 0 {
            return o1;
        }
        let o2 = order_i32(y.goal_diff(), x.goal_diff());
        if o2 != 0 {
            return o2;
        }
        order_u32(y.goals_for, x.goals_for)
    } else {
        let mut o: i8 = 0;
        let mut i: usize = 0;
        proof {
            assert(rank_by@.skip(0) =~= rank_by@);
        }
        while i < rank_by.len()
            invariant
                i <= rank_by@.len(),
                o == 0,
                !totals,
                rank_order(*x, *y, rank_by@) == rank_order(*x, *y, rank_by@.skip(i as int)),
                bounded_for(*x, rank_by@, totals),
                bounded_for(*y, rank_by@, totals),
            decreases rank_by@.len() - i,
        {
            proof {
                assert(rank_by@.skip(i as int).drop_first() =~= rank_by@.skip(i as int + 1));
                assert(rank_by@.skip(i as int)[0] == rank_by@[i as int]);
            }
            proof {
                assert(crit_bounded(*x, rank_by@[i as int]));
                assert(crit_bounded(*y, rank_by@[i as int]));
            }
            let c = crit_compare(x, y, rank_by[i]);
            if c != 0 {
                assert(rank_order(*x, *y, rank_by@.skip(i as int)) == c);
                return c;
            }
            i = i + 1;
        }
        o
    }
}

/// Sorts the lines, stably, by the comparison of `rank_by` (or of the totals).
pub fn stable_sort(v: &mut Vec<RoundStats>, rank_by: &Vec<RankBy>, totals: bool)
    requires
        all_bounded_for(old(v)@, rank_by@, totals),
    ensures
        sorted_from(old(v)@, final(v)@, rank_by@, totals),
{
    let ghost orig = v@;
    let ghost tp = total_preorder(orig, rank_by@, totals);
    let mut inp: Vec<RoundStats> = Vec::new();
    std::mem::swap(v, &mut inp);
    let mut out: Vec<RoundStats> = Vec::new();
    let ghost mut perm: Seq<int> = Seq::empty();
    let ghost mut taken: int = 0;
    proof {
        assert(orig.skip(0) =~= orig);
    }
    while inp.len() > 0
        invariant
            0 <= taken <= orig.len(),
            inp@ == orig.skip(taken),
            out@.len() == taken,
            perm.len() == taken,
            all_bounded_for(orig, rank_by@, totals),
            tp == total_preorder(orig, rank_by@, totals),
            forall|k: int| 0 <= k < taken ==> 0 <= #[trigger] perm[k] < taken,
            forall|k: int, l: int| 0 <= k < l < taken ==> #[trigger] perm[k] != #[trigger] perm[l],
            forall|k: int| 0 <= k < taken ==> #[trigger] out@[k] == orig[perm[k]],
            tp ==> is_sorted(out@, rank_by@, totals),
            tp ==> is_stable(out@, perm, rank_by@, totals),
        decreases inp@.len(),
    {
        proof {
            assert(inp@[0] == orig[taken]);
        }
        let x = inp.remove(0);
        proof {
            assert(inp@ =~= orig.skip(taken + 1));
        }
        let mut j: usize = out.len();
        while j > 0 && compare_stats(&x, &out[j - 1], rank_by, totals) == -1
            invariant
                j <= out@.len(),
                out@.len() == taken,
                x == orig[taken],
                0 <= taken < orig.len(),
                all_bounded_for(orig, rank_by@, totals),
                forall|k: int| 0 <= k < taken ==> #[trigger] out@[k] == orig[perm[k]],
                forall|k: int| 0 <= k < taken ==> 0 <= #[trigger] perm[k] < taken,
                forall|k: int| j <= k < out@.len() ==> #[trigger] stat_order(x, out@[k], rank_by@, totals) == -1,
            decreases j,
        {
            proof {
                assert(bounded_for(orig[perm[j - 1]], rank_by@, totals));
            }
            j = j - 1;
        }
        let ghost old_out = out@;
        let ghost old_perm = perm;
        proof {
            lemma_insert_keeps_order(orig, old_out, old_perm, x, j as int, taken, rank_by@, totals);
        }
        out.insert(j, x);
        proof {
            perm = old_perm.insert(j as int, taken);
            taken = taken + 1;
        }
    }
    proof {
        assert(taken == orig.len()) by {
            assert(orig.skip(taken).len() == 0);
        }
        assert(is_permutation(orig, out@, perm));
    }
    *v = out;
}

/// The criterion compares a value of each line on its own (not the two lines
/// against each other).
pub open spec fn is_attribute(r: RankBy) -> bool {
    r != RankBy::VsPoints && r != RankBy::VsGoalDiff && r != RankBy::VsGoals
}

/// The value of a line that an attribute criterion compares (larger ranks first).
pub open spec fn attribute_key(x: RoundStats, r: RankBy) -> int {
    match r {
        RankBy::Points => x.points as int,
        RankBy::GoalDiff => goal_diff_of(x),
        RankBy::Goals => x.goals_for as int,
        _ => 0,
    }
}

proof fn lemma_rank_order_laws(x: RoundStats, y: RoundStats, z: RoundStats, rank_by: Seq<RankBy>)
    requires
        forall|i: int| 0 <= i < rank_by.len() ==> is_attribute(#[trigger] rank_by[i]),
    ensures
        rank_order(x, y, rank_by) == -rank_order(y, x, rank_by),
        rank_order(x, y, rank_by) <= 0 && rank_order(y, z, rank_by) <= 0 ==> rank_order(x, z, rank_by) <= 0,
    decreases rank_by.len(),
{
    if rank_by.len() > 0 {
        let r = rank_by[0];
        assert(is_attribute(r));
        assert(crit_order(x, y, r) == order_int(attribute_key(y, r), attribute_key(x, r)));
        assert(crit_order(y, x, r) == order_int(attribute_key(x, r), attribute_key(y, r)));
        assert(crit_order(y, z, r) == order_int(attribute_key(z, r), attribute_key(y, r)));
        assert(crit_order(x, z, r) == order_int(attribute_key(z, r), attribute_key(x, r)));
        let rest = rank_by.drop_first();
        assert forall|i: int| 0 <= i < rest.len() implies is_attribute(#[trigger] rest[i]) by {
            assert(rest[i] == rank_by[i + 1]);
        }
        lemma_rank_order_laws(x, y, z, rest);
    }
}

/// Ranking by the totals, or by criteria that each compare a value of one
/// line (points, goal difference, goals), always orders the lines as a
/// total preorder; a stable sort then has one result.
pub proof fn lemma_attribute_ranking_is_total(s: Seq<RoundStats>, rank_by: Seq<RankBy>, totals: bool)
    requires
        totals || forall|i: int| 0 <= i < rank_by.len() ==> is_attribute(#[trigger] rank_by[i]),
    ensures
        total_preorder(s, rank_by, totals),
{
    if totals {
        let crits = seq![RankBy::Points, RankBy::GoalDiff, RankBy::Goals];
        assert forall|x: RoundStats, y: RoundStats| #[trigger] totals_order(x, y) == rank_order(x, y, crits) by {
            reveal_with_fuel(rank_order, 4);
            assert(crits[0] == RankBy::Points);
            assert(crits.drop_first().drop_first().drop_first().len() == 0);
            assert(crits.drop_first()[0] == RankBy::GoalDiff);
            assert(crits.drop_first().drop_first()[0] == RankBy::Goals);
        }
        assert forall|i: int| 0 <= i < crits.len() implies is_attribute(#[trigger] crits[i]) by {}
        assert forall|a: int, b: int| 0 <= a < s.len() && 0 <= b < s.len() implies
            #[trigger] stat_order(s[a], s[b], rank_by, totals) == -stat_order(s[b], s[a], rank_by, totals) by {
            lemma_rank_order_laws(s[a], s[b], s[b], crits);
        }
        assert forall|a: int, b: int, c: int|
            0 <= a < s.len() && 0 <= b < s.len() && 0 <= c < s.len() && #[trigger] stat_order(s[a], s[b], rank_by, totals)
                <= 0 && #[trigger] stat_order(s[b], s[c], rank_by, totals) <= 0 implies stat_order(s[a], s[c], rank_by, totals)
            <= 0 by {
            lemma_rank_order_laws(s[a], s[b], s[c], crits);
        }
    } else {
        assert forall|a: int, b: int| 0 <= a < s.len() && 0 <= b < s.len() implies
            #[trigger] stat_order(s[a], s[b], rank_by, totals) == -stat_order(s[b], s[a], rank_by, totals) by {
            lemma_rank_order_laws(s[a], s[b], s[b], rank_by);
        }
        assert forall|a: int, b: int, c: int|
            0 <= a < s.len() && 0 <= b < s.len() && 0 <= c < s.len() && #[trigger] stat_order(s[a], s[b], rank_by, totals)
                <= 0 && #[trigger] stat_order(s[b], s[c], rank_by, totals) <= 0 implies stat_order(s[a], s[c], rank_by, totals)
            <= 0 by {
            lemma_rank_order_laws(s[a], s[b], s[c], rank_by);
        }
    }
}

/// A comparison is -1, 0 or 1.
pub proof fn lemma_order_range(x: RoundStats, y: RoundStats, rank_by: Seq<RankBy>, totals: bool)
    ensures
        -1 <= stat_order(x, y, rank_by, totals) <= 1,
    decreases rank_by.len(),
{
    if !totals && rank_by.len() > 0 {
        lemma_order_range(x, y, rank_by.drop_first(), totals);
    }
}

/// Inserting the next line `x` at position `j`, behind every line it does not
/// rank before, keeps the sorted part sorted and stable.
proof fn lemma_insert_keeps_order(
    orig: Seq<RoundStats>,
    out: Seq<RoundStats>,
    perm: Seq<int>,
    x: RoundStats,
    j: int,
    taken: int,
    rank_by: Seq<RankBy>,
    totals: bool,
)
    requires
        0 <= taken < orig.len(),
        0 <= j <= out.len(),
        out.len() == taken,
        perm.len() == taken,
        x == orig[taken],
        forall|k: int| 0 <= k < taken ==> 0 <= #[trigger] perm[k] < taken,
        forall|k: int, l: int| 0 <= k < l < taken ==> #[trigger] perm[k] != #[trigger] perm[l],
        forall|k: int| 0 <= k < taken ==> #[trigger] out[k] == orig[perm[k]],
        forall|k: int| j <= k < out.len() ==> #[trigger] stat_order(x, out[k], rank_by, totals) == -1,
        j > 0 ==> stat_order(x, out[j - 1], rank_by, totals) != -1,
        total_preorder(orig, rank_by, totals) ==> is_sorted(out, rank_by, totals),
        total_preorder(orig, rank_by, totals) ==> is_stable(out, perm, rank_by, totals),
    ensures
        ({
            let nout = out.insert(j, x);
            let nperm = perm.insert(j, taken);
            &&& forall|k: int| 0 <= k < taken + 1 ==> 0 <= #[trigger] nperm[k] < taken + 1
            &&& forall|k: int, l: int| 0 <= k < l < taken + 1 ==> #[trigger] nperm[k] != #[trigger] nperm[l]
            &&& forall|k: int| 0 <= k < taken + 1 ==> #[trigger] nout[k] == orig[nperm[k]]
            &&& total_preorder(orig, rank_by, totals) ==> is_sorted(nout, rank_by, totals)
            &&& total_preorder(orig, rank_by, totals) ==> is_stable(nout, nperm, rank_by, totals)
        }),
{
    let nout = out.insert(j, x);
    let nperm = perm.insert(j, taken);
    assert forall|k: int| 0 <= k < taken + 1 implies #[trigger] nout[k] == orig[nperm[k]] by {
        if k < j {
            assert(nout[k] == out[k]);
        } else if k > j {
            assert(nout[k] == out[k - 1]);
        }
    }
    assert forall|k: int, l: int| 0 <= k < l < taken + 1 implies #[trigger] nperm[k] != #[trigger] nperm[l] by {
        if k < j && l < j {
        } else if k < j && l == j {
        } else if k < j && l > j {
            assert(nperm[l] == perm[l - 1]);
        } else if k == j {
            assert(nperm[l] == perm[l - 1]);
        } else {
            assert(nperm[k] == perm[k - 1]);
            assert(nperm[l] == perm[l - 1]);
        }
    }
    if total_preorder(orig, rank_by, totals) {
        // positions of out in orig
        assert forall|k: int| 0 <= k < j implies stat_order(x, #[trigger] out[k], rank_by, totals) != -1 by {
            let a = perm[k];
            let b = perm[j - 1];
            assert(out[k] == orig[a]);
            assert(out[j - 1] == orig[b]);
            lemma_order_range(orig[a], orig[b], rank_by, totals);
            lemma_order_range(orig[b], orig[a], rank_by, totals);
            lemma_order_range(orig[taken], orig[b], rank_by, totals);
            lemma_order_range(orig[b], orig[taken], rank_by, totals);
            lemma_order_range(orig[taken], orig[a], rank_by, totals);
            lemma_order_range(orig[a], orig[taken], rank_by, totals);
            if k < j - 1 {
                assert(stat_order(out[j - 1], out[k], rank_by, totals) != -1);
                assert(stat_order(orig[b], orig[a], rank_by, totals) == -stat_order(orig[a], orig[b], rank_by, totals));
                assert(stat_order(orig[taken], orig[b], rank_by, totals) == -stat_order(orig[b], orig[taken], rank_by, totals));
                assert(stat_order(orig[a], orig[b], rank_by, totals) <= 0);
                assert(stat_order(orig[b], orig[taken], rank_by, totals) <= 0);
                assert(stat_order(orig[a], orig[taken], rank_by, totals) <= 0);
                assert(stat_order(orig[taken], orig[a], rank_by, totals) == -stat_order(orig[a], orig[taken], rank_by, totals));
            }
        }
        assert forall|a: int, b: int| 0 <= a < b < nout.len() implies #[trigger] stat_order(nout[b], nout[a], rank_by, totals) != -1 by {
            if b < j {
                assert(nout[a] == out[a] && nout[b] == out[b]);
            } else if b == j {
                assert(nout[a] == out[a]);
            } else if a == j {
                assert(nout[b] == out[b - 1]);
                let pb = perm[b - 1];
                assert(stat_order(orig[taken], orig[pb], rank_by, totals) == -1);
                assert(stat_order(orig[pb], orig[taken], rank_by, totals) == -stat_order(orig[taken], orig[pb], rank_by, totals));
            } else if a < j {
                assert(nout[a] == out[a] && nout[b] == out[b - 1]);
            } else {
                assert(nout[a] == out[a - 1] && nout[b] == out[b - 1]);
            }
        }
        assert forall|a: int, b: int|
            0 <= a < b < nout.len() && #[trigger] stat_order(nout[a], nout[b], rank_by, totals) == 0 implies nperm[a] < nperm[b] by {
            if b < j {
                assert(nout[a] == out[a] && nout[b] == out[b]);
            } else if b == j {
                assert(nout[a] == out[a]);
            } else if a == j {
                assert(nout[b] == out[b - 1]);
            } else if a < j {
                assert(nout[a] == out[a] && nout[b] == out[b - 1]);
            } else {
                assert(nout[a] == out[a - 1] && nout[b] == out[b - 1]);
            }
        }
    }
}


/// How line `x` stands against line `y` by criterion `r`, counted from its
/// own results: its points, goal difference or goals, or, head to head,
/// its points, goal difference or goals against `y`'s team. Higher ranks
/// first.
pub open spec fn standing(x: RoundStats, y: RoundStats, r: RankBy) -> int {
    match r {
        RankBy::Points => x.points as int,
        RankBy::GoalDiff => x.goals_for - x.goals_against,
        RankBy::Goals => x.goals_for as int,
        RankBy::VsPoints => vs_get(x.vs_points@, y.team) as int,
        RankBy::VsGoalDiff => vs_get(x.vs_goals_for@, y.team) - vs_get(x.vs_goals_against@, y.team),
        RankBy::VsGoals => vs_get(x.vs_goals_for@, y.team) as int,
        _ => 0,
    }
}

/// A round robin table ranks by its criteria in order: the first criterion
/// by which two lines stand differently puts the line that stands higher
/// first (so a team that took more head-to-head points against the other
/// ranks ahead of it), and lines that stand equal by all criteria rank
/// equal.
pub proof fn lemma_first_differing_criterion_decides(x: RoundStats, y: RoundStats, rb: Seq<RankBy>, k: int)
    requires
        0 <= k <= rb.len(),
        forall|j: int| 0 <= j < k ==> standing(x, y, #[trigger] rb[j]) == standing(y, x, rb[j]),
        k < rb.len() ==> standing(x, y, rb[k]) > standing(y, x, rb[k]),
    ensures
        k < rb.len() ==> stat_order(x, y, rb, false) == -1 && stat_order(y, x, rb, false) == 1,
        k == rb.len() ==> stat_order(x, y, rb, false) == 0 && stat_order(y, x, rb, false) == 0,
    decreases k,
{
    if k > 0 {
        let d = rb.drop_first();
        assert forall|j: int| 0 <= j < k - 1 implies standing(x, y, #[trigger] d[j]) == standing(y, x, d[j]) by {
            assert(d[j] == rb[j + 1]);
        }
        if k - 1 < d.len() {
            assert(d[k - 1] == rb[k]);
        }
        lemma_first_differing_criterion_decides(x, y, d, k - 1);
        assert(standing(x, y, rb[0]) == standing(y, x, rb[0]));
    } else if rb.len() > 0 {
        assert(standing(x, y, rb[0]) > standing(y, x, rb[0]));
    }
}

/// A `ranking_sort` table ranks by points, then goal difference, then goals
/// scored, higher first.
pub proof fn lemma_totals_rank(x: RoundStats, y: RoundStats, rb: Seq<RankBy>)
    ensures
        x.points > y.points ==> stat_order(x, y, rb, true) == -1,
        x.points == y.points && goal_diff_of(x) > goal_diff_of(y) ==> stat_order(x, y, rb, true) == -1,
        x.points == y.points && goal_diff_of(x) == goal_diff_of(y) && x.goals_for > y.goals_for ==> stat_order(
            x,
            y,
            rb,
            true,
        ) == -1,
        x.points == y.points && goal_diff_of(x) == goal_diff_of(y) && x.goals_for == y.goals_for ==> stat_order(
            x,
            y,
            rb,
            true,
        ) == 0,
{
}

} // verus!
