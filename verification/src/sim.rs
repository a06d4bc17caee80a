//! Results of simulated matches.
use vstd::prelude::*;
use crate::text::{dec, dec_chars, push_char, push_str_chars};

verus! {

/// Goals of one period: the minutes of the goals of team 1 and of team 2.
pub type PeriodGoals = (Vec<u32>, Vec<u32>);

/// The outcome of one match: the goal minutes of each team, per period.
pub struct MatchResult {
    first_half: (Vec<u32>, Vec<u32>),
    second_half: (Vec<u32>, Vec<u32>),
    extra_time: Option<(Vec<u32>, Vec<u32>)>,
    penalties: Option<(Vec<u32>, Vec<u32>)>,
}

/// Goal counts of an optional period (none when it was not played).
pub open spec fn opt_counts(p: Option<(Seq<u32>, Seq<u32>)>) -> (nat, nat) {
    match p {
        Some(g) => (g.0.len(), g.1.len()),
        None => (0, 0),
    }
}

/// Sum of two pairs of counts.
pub open spec fn add_counts(a: (nat, nat), b: (nat, nat)) -> (nat, nat) {
    (a.0 + b.0, a.1 + b.1)
}

/// Text of a score: `a-b`.
pub open spec fn score_text(p: (nat, nat)) -> Seq<char> {
    dec(p.0) + seq!['-'] + dec(p.1)
}

/// View of a pair of goal vectors.
pub open spec fn goals_view(g: (Vec<u32>, Vec<u32>)) -> (Seq<u32>, Seq<u32>) {
    (g.0@, g.1@)
}

/// View of an optional pair of goal vectors.
pub open spec fn opt_goals_view(g: Option<(Vec<u32>, Vec<u32>)>) -> Option<(Seq<u32>, Seq<u32>)> {
    match g {
        Some(x) => Some(goals_view(x)),
        None => None,
    }
}

/// Counts of a score fit in `u32`.
pub open spec fn fits_u32(p: (nat, nat)) -> bool {
    p.0 <= u32::MAX && p.1 <= u32::MAX
}

impl MatchResult {
    /// Goal minutes of the first half.
    pub closed spec fn first_half(&self) -> (Seq<u32>, Seq<u32>) {
        goals_view(self.first_half)
    }

    /// Goal minutes of the second half.
    pub closed spec fn second_half(&self) -> (Seq<u32>, Seq<u32>) {
        goals_view(self.second_half)
    }

    /// Goal minutes of the extra time, if it was played.
    pub closed spec fn extra_time(&self) -> Option<(Seq<u32>, Seq<u32>)> {
        opt_goals_view(self.extra_time)
    }

    /// Goals of the penalty shootout, if there was one.
    pub closed spec fn penalties(&self) -> Option<(Seq<u32>, Seq<u32>)> {
        opt_goals_view(self.penalties)
    }

    /// Score after the first half.
    pub open spec fn spec_after_first(&self) -> (nat, nat) {
        (self.first_half().0.len(), self.first_half().1.len())
    }

    /// Score after the second half.
    pub open spec fn spec_after_second(&self) -> (nat, nat) {
        add_counts(self.spec_after_first(), (self.second_half().0.len(), self.second_half().1.len()))
    }

    /// Score after extra time (the same as after the second half without it).
    pub open spec fn spec_after_extra(&self) -> (nat, nat) {
        add_counts(self.spec_after_second(), opt_counts(self.extra_time()))
    }

    /// Final score, penalty shootout goals included.
    pub open spec fn spec_total(&self) -> (nat, nat) {
        add_counts(self.spec_after_extra(), opt_counts(self.penalties()))
    }

    /// Every score of the match fits in `u32`.
    #[verifier::type_invariant]
    closed spec fn counts_fit(&self) -> bool {
        fits_u32(self.spec_total())
    }

    /// The text of the result as shown in match listings.
    pub open spec fn spec_result_str(&self) -> Seq<char> {
        score_text(self.spec_total()) + result_suffix(
            self.penalties() is Some,
            self.extra_time() is Some,
            score_text(self.spec_after_first()),
            score_text(self.spec_after_second()),
            score_text(self.spec_after_extra()),
        )
    }

    /// A match result made of its periods.
    pub fn new(
        first_half: (Vec<u32>, Vec<u32>),
        second_half: (Vec<u32>, Vec<u32>),
        extra_time: Option<(Vec<u32>, Vec<u32>)>,
        penalties: Option<(Vec<u32>, Vec<u32>)>,
    ) -> (res: MatchResult)
        requires
            fits_u32(
                add_counts(
                    add_counts(
                        add_counts(
                            (first_half.0@.len(), first_half.1@.len()),
                            (second_half.0@.len(), second_half.1@.len()),
                        ),
                        opt_counts(opt_goals_view(extra_time)),
                    ),
                    opt_counts(opt_goals_view(penalties)),
                ),
            ),
        ensures
            res.first_half() == goals_view(first_half),
            res.second_half() == goals_view(second_half),
            res.extra_time() == opt_goals_view(extra_time),
            res.penalties() == opt_goals_view(penalties),
    {
        MatchResult { first_half, second_half, extra_time, penalties }
    }

    /// Sets the goals of the extra time.
    pub fn set_extra_time(&mut self, goals: (Vec<u32>, Vec<u32>))
        requires
            fits_u32(
                add_counts(
                    add_counts(old(self).spec_after_second(), (goals.0@.len(), goals.1@.len())),
                    opt_counts(old(self).penalties()),
                ),
            ),
        ensures
            final(self).first_half() == old(self).first_half(),
            final(self).second_half() == old(self).second_half(),
            final(self).extra_time() == Some(goals_view(goals)),
            final(self).penalties() == old(self).penalties(),
    {
        self.extra_time = Some(goals);
    }

    /// Sets the goals of the penalty shootout.
    pub fn set_penalties(&mut self, goals: (Vec<u32>, Vec<u32>))
        requires
            fits_u32(add_counts(old(self).spec_after_extra(), (goals.0@.len(), goals.1@.len()))),
        ensures
            final(self).first_half() == old(self).first_half(),
            final(self).second_half() == old(self).second_half(),
            final(self).extra_time() == old(self).extra_time(),
            final(self).penalties() == Some(goals_view(goals)),
    {
        self.penalties = Some(goals);
    }

    /// Score after the first half.
    pub fn total_after_first(&self) -> (res: (u32, u32))
        ensures
            res.0 == self.spec_after_first().0,
            res.1 == self.spec_after_first().1,
    {
        proof {
            use_type_invariant(self);
        }
        (self.first_half.0.len() as u32, self.first_half.1.len() as u32)
    }

    /// Score after the second half.
    pub fn total_after_second(&self) -> (res: (u32, u32))
        ensures
            res.0 == self.spec_after_second().0,
            res.1 == self.spec_after_second().1,
    {
        proof {
            use_type_invariant(self);
        }
        (
            self.first_half.0.len() as u32 + self.second_half.0.len() as u32,
            self.first_half.1.len() as u32 + self.second_half.1.len() as u32,
        )
    }

    /// Score after extra time; without extra time, the score after the second half.
    pub fn total_after_extra(&self) -> (res: (u32, u32))
        ensures
            res.0 == self.spec_after_extra().0,
            res.1 == self.spec_after_extra().1,
    {
        proof {
            use_type_invariant(self);
        }
        let mut total = self.total_after_second();
        if let Some(ref x) = self.extra_time {
            total.0 = total.0 + x.0.len() as u32;
            total.1 = total.1 + x.1.len() as u32;
        }
        total
    }

    /// Final score, penalty shootout goals included.
    pub fn total(&self) -> (res: (u32, u32))
        ensures
            res.0 == self.spec_total().0,
            res.1 == self.spec_total().1,
    {
        proof {
            use_type_invariant(self);
        }
        let mut total = self.total_after_extra();
        if let Some(ref x) = self.penalties {
            total.0 = total.0 + x.0.len() as u32;
            total.1 = total.1 + x.1.len() as u32;
        }
        total
    }

    /// The result as shown in match listings, for example `3-3 (2-1)` for a
    /// match in regular time, `2-1e (1-0, 1-1)` after extra time and
    /// `5-4p (0-0, 1-1)` after a penalty shootout.
    pub fn result_str(&self) -> (res: String)
        ensures
            res@ == self.spec_result_str(),
    {
        let t = self.total();
        let a1 = self.total_after_first();
        let a2 = self.total_after_second();
        let a3 = self.total_after_extra();
        let mut s = String::new();
        push_score(&mut s, t);
        push_suffix(&mut s, self.penalties.is_some(), self.extra_time.is_some(), a1, a2, a3);
        s
    }
}

/// What follows the final score in the text of a result: the scores of the
/// periods, marked `p` after a penalty shootout and `e` after extra time.
pub open spec fn result_suffix(pen: bool, extra: bool, f: Seq<char>, s: Seq<char>, e: Seq<char>) -> Seq<char> {
    if pen {
        if extra {
            seq!['p', ' ', '('] + f + seq![',', ' '] + s + seq![',', ' '] + e + seq![')']
        } else {
            seq!['p', ' ', '('] + f + seq![',', ' '] + s + seq![')']
        }
    } else if extra {
        seq!['e', ' ', '('] + f + seq![',', ' '] + s + seq![')']
    } else {
        seq![' ', '('] + f + seq![')']
    }
}

fn push_suffix(s: &mut String, pen: bool, extra: bool, a1: (u32, u32), a2: (u32, u32), a3: (u32, u32))
    ensures
        final(s)@ == old(s)@ + result_suffix(
            pen,
            extra,
            score_text((a1.0 as nat, a1.1 as nat)),
            score_text((a2.0 as nat, a2.1 as nat)),
            score_text((a3.0 as nat, a3.1 as nat)),
        ),
{
    let ghost s0 = s@;
    let ghost f = score_text((a1.0 as nat, a1.1 as nat));
    let ghost s2 = score_text((a2.0 as nat, a2.1 as nat));
    let ghost e = score_text((a3.0 as nat, a3.1 as nat));
    if pen {
        push_char(s, 'p');
    } else if extra {
        push_char(s, 'e');
    }
    push_char(s, ' ');
    push_char(s, '(');
    let ghost s1 = s@;
    push_score(s, a1);
    if pen || extra {
        push_char(s, ',');
        push_char(s, ' ');
        push_score(s, a2);
        if pen && extra {
            push_char(s, ',');
            push_char(s, ' ');
            push_score(s, a3);
        }
    }
    push_char(s, ')');
    assert(s@ =~= s0 + result_suffix(pen, extra, f, s2, e));
}

/// Appends the text of a score, `a-b`.
fn push_score(s: &mut String, p: (u32, u32))
    ensures
        final(s)@ == old(s)@ + score_text((p.0 as nat, p.1 as nat)),
{
    let a = dec_chars(p.0 as u64);
    let b = dec_chars(p.1 as u64);
    push_str_chars(s, &a);
    push_char(s, '-');
    push_str_chars(s, &b);
    assert(s@ =~= old(s)@ + score_text((p.0 as nat, p.1 as nat)));
}

/// The scores of a match never decrease from one period to the next.
pub proof fn lemma_scores_monotone(m: MatchResult)
    ensures
        m.spec_after_first().0 <= m.spec_after_second().0 <= m.spec_after_extra().0 <= m.spec_total().0,
        m.spec_after_first().1 <= m.spec_after_second().1 <= m.spec_after_extra().1 <= m.spec_total().1,
{
}

} // verus!
