//! The text of round results: match listings and tables.
use vstd::prelude::*;
use crate::config::{Mode, Team};
use crate::result::{Match, PairingResult, RoundResult, RoundStats, goal_diff_of};
use crate::sim::MatchResult;
use crate::text::{
    dec, dec_chars, dec_int, dec_int_chars, is_char_boundary, pad_end, pad_start, padded_end, padded_start,
    string_chars, truncate_bytes, truncated,
};

verus! {

/// A team name as listed: cut to 32 bytes, padded to 32 characters.
pub open spec fn name_field(name: Seq<char>) -> Seq<char> {
    pad_end(truncate_bytes(name, 32), 32)
}

/// Every team name can be cut at 32 bytes (the cut does not fall inside
/// a character).
pub open spec fn names_cuttable(teams: Seq<Team>) -> bool {
    forall|i: int| 0 <= i < teams.len() ==> is_char_boundary((#[trigger] teams[i]).name@, 32)
}

/// The table line of `s` for a team named `name`: the name, then, with
/// `with_stats`, goals scored and conceded, goal difference and points.
pub open spec fn table_line(name: Seq<char>, s: RoundStats, with_stats: bool) -> Seq<char> {
    name_field(name) + if with_stats {
        seq![' '] + pad_start(dec(s.goals_for as nat), 3) + seq!['-'] + pad_end(dec(s.goals_against as nat), 3) + seq![' ']
            + pad_start(dec_int(goal_diff_of(s)), 3) + seq![' '] + pad_start(dec(s.points as nat), 3)
    } else {
        Seq::<char>::empty()
    }
}

/// The listing line of a match between teams named `n1` and `n2`.
pub open spec fn match_line(n1: Seq<char>, n2: Seq<char>, r: MatchResult) -> Seq<char> {
    name_field(n1) + seq![' ', '-', ' '] + name_field(n2) + seq![' ', ' ', ' '] + r.spec_result_str()
}

/// The listing lines of the matches of a pairing.
pub open spec fn pairing_lines(p: PairingResult, teams: Seq<Team>) -> Seq<Seq<char>> {
    p.match_results@.map_values(
        |m: Match| match_line(teams[p.teams.0 as int].name@, teams[p.teams.1 as int].name@, m.result->Some_0),
    )
}

/// The listing lines of the matches of the pairings, in order.
pub open spec fn matches_text(ps: Seq<PairingResult>, teams: Seq<Team>) -> Seq<Seq<char>>
    decreases ps.len(),
{
    if ps.len() == 0 {
        seq![]
    } else {
        matches_text(ps.drop_last(), teams) + pairing_lines(ps.last(), teams)
    }
}

/// The lines of a table: place (from 1, in two columns) and table line.
pub open spec fn table_text(stats: Seq<RoundStats>, teams: Seq<Team>, with_stats: bool) -> Seq<Seq<char>> {
    Seq::new(
        stats.len(),
        |i: int| pad_start(dec((i + 1) as nat), 2) + seq![' '] + table_line(teams[stats[i].team as int].name@, stats[i], with_stats),
    )
}

/// The report of a round: its name, its matches and, but for a playoff,
/// its table (with goals and points, but for a `ranking`), each part
/// followed by an empty line.
pub open spec fn report_text(r: RoundResult, teams: Seq<Team>) -> Seq<Seq<char>> {
    let head = seq![seq!['R', 'o', 'u', 'n', 'd', ':', ' '] + r.name@];
    let body = head + matches_text(r.pairings@, teams);
    match r.mode {
        Mode::Playoff => body.push(Seq::<char>::empty()),
        Mode::Ranking => body.push(Seq::<char>::empty()) + table_text(r.stats@, teams, false).push(Seq::<char>::empty()),
        _ => body.push(Seq::<char>::empty()) + table_text(r.stats@, teams, true).push(Seq::<char>::empty()),
    }
}

/// The views of a sequence of strings.
pub open spec fn lines_view(v: Seq<String>) -> Seq<Seq<char>> {
    v.map_values(|s: String| s@)
}

/// A team name as listed.
fn name_text(name: &String) -> (res: String)
    ensures
        res@ == name_field(name@),
{
    let cs = string_chars(name);
    let cut = truncated(&cs, 32);
    padded_end(&cut, 32)
}

impl RoundStats {
    /// The table line of this line's team (see [`table_line`]).
    pub fn table_line_str(&self, teams: &Vec<Team>, with_stats: bool) -> (res: String)
        requires
            self.team < teams@.len(),
            is_char_boundary(teams@[self.team as int].name@, 32),
            with_stats ==> self.goals_for <= i32::MAX && self.goals_against <= i32::MAX,
        ensures
            res@ == table_line(teams@[self.team as int].name@, *self, with_stats),
    {
        let mut s = name_text(&teams[self.team].name);
        if with_stats {
            let ghost s0 = s@;
            let gf = padded_start(&dec_chars(self.goals_for as u64), 3);
            let ga = padded_end(&dec_chars(self.goals_against as u64), 3);
            let gd = padded_start(&dec_int_chars(self.goal_diff() as i64), 3);
            let pts = padded_start(&dec_chars(self.points as u64), 3);
            s.append(" ");
            s.append(gf.as_str());
            s.append("-");
            s.append(ga.as_str());
            s.append(" ");
            s.append(gd.as_str());
            s.append(" ");
            s.append(pts.as_str());
            proof {
                reveal_strlit(" ");
                reveal_strlit("-");
                assert(s@ =~= table_line(teams@[self.team as int].name@, *self, with_stats));
            }
        } else {
            proof {
                assert(s@ =~= table_line(teams@[self.team as int].name@, *self, with_stats));
            }
        }
        s
    }
}

/// The listing line of a match (see [`match_line`]).
fn match_text(n1: &String, n2: &String, r: &MatchResult) -> (res: String)
    ensures
        res@ == match_line(n1@, n2@, *r),
{
    let mut s = name_text(n1);
    let b = name_text(n2);
    let rs = r.result_str();
    s.append(" - ");
    s.append(b.as_str());
    s.append("   ");
    s.append(rs.as_str());
    proof {
        reveal_strlit(" - ");
        reveal_strlit("   ");
        assert(s@ =~= match_line(n1@, n2@, *r));
    }
    s
}

proof fn lemma_matches_text_prefix(ps: Seq<PairingResult>, teams: Seq<Team>, j: int)
    requires
        0 <= j < ps.len(),
    ensures
        matches_text(ps.take(j + 1), teams) == matches_text(ps.take(j), teams) + pairing_lines(ps[j], teams),
{
    assert(ps.take(j + 1).drop_last() =~= ps.take(j));
}

impl RoundResult {
    /// The listing lines of the round's matches (see [`matches_text`]).
    pub fn match_lines(&self, teams: &Vec<Team>) -> (res: Vec<String>)
        requires
            names_cuttable(teams@),
            forall|j: int| 0 <= j < self.pairings@.len() ==> {
                &&& (#[trigger] self.pairings@[j]).teams.0 < teams@.len()
                &&& self.pairings@[j].teams.1 < teams@.len()
                &&& forall|m: int| 0 <= m < self.pairings@[j].match_results@.len()
                    ==> (#[trigger] self.pairings@[j].match_results@[m]).result is Some
            },
        ensures
            lines_view(res@) == matches_text(self.pairings@, teams@),
    {
        let ghost ps = self.pairings@;
        let mut lines: Vec<String> = Vec::new();
        let mut j: usize = 0;
        while j < self.pairings.len()
            invariant
                j <= ps.len(),
                ps == self.pairings@,
                names_cuttable(teams@),
                forall|j: int| 0 <= j < ps.len() ==> {
                    &&& (#[trigger] ps[j]).teams.0 < teams@.len()
                    &&& ps[j].teams.1 < teams@.len()
                    &&& forall|m: int| 0 <= m < ps[j].match_results@.len() ==> (#[trigger] ps[j].match_results@[m]).result is Some
                },
                lines_view(lines@) == matches_text(ps.take(j as int), teams@),
            decreases ps.len() - j,
        {
            let p = &self.pairings[j];
            let ghost base = lines_view(lines@);
            let n1 = &teams[p.teams.0].name;
            let n2 = &teams[p.teams.1].name;
            let mut m: usize = 0;
            while m < p.match_results.len()
                invariant
                    m <= p.match_results@.len(),
                    *p == ps[j as int],
                    n1@ == teams@[p.teams.0 as int].name@,
                    n2@ == teams@[p.teams.1 as int].name@,
                    forall|m: int| 0 <= m < p.match_results@.len() ==> (#[trigger] p.match_results@[m]).result is Some,
                    lines_view(lines@) == base + pairing_lines(*p, teams@).take(m as int),
                decreases p.match_results@.len() - m,
            {
                let r = p.match_results[m].result.as_ref().unwrap();
                let line = match_text(n1, n2, r);
                let ghost before = lines@;
                lines.push(line);
                proof {
                    assert(lines_view(lines@) =~= lines_view(before).push(line@));
                    assert(pairing_lines(*p, teams@).take(m as int + 1) =~= pairing_lines(*p, teams@).take(m as int).push(
                        pairing_lines(*p, teams@)[m as int],
                    ));
                    assert(base + pairing_lines(*p, teams@).take(m as int + 1) =~= (base + pairing_lines(*p, teams@).take(
                        m as int,
                    )).push(line@));
                }
                m = m + 1;
            }
            proof {
                assert(pairing_lines(*p, teams@).take(p.match_results@.len() as int) =~= pairing_lines(*p, teams@));
                lemma_matches_text_prefix(ps, teams@, j as int);
            }
            j = j + 1;
        }
        proof {
            assert(ps.take(ps.len() as int) =~= ps);
        }
        lines
    }

    /// The lines of the round's table (see [`table_text`]).
    pub fn table_lines(&self, teams: &Vec<Team>, with_stats: bool) -> (res: Vec<String>)
        requires
            names_cuttable(teams@),
            forall|s: int| 0 <= s < self.stats@.len() ==> {
                &&& (#[trigger] self.stats@[s]).team < teams@.len()
                &&& with_stats ==> self.stats@[s].goals_for <= i32::MAX && self.stats@[s].goals_against <= i32::MAX
            },
        ensures
            lines_view(res@) == table_text(self.stats@, teams@, with_stats),
    {
        let mut lines: Vec<String> = Vec::new();
        let mut i: usize = 0;
        while i < self.stats.len()
            invariant
                i <= self.stats@.len(),
                names_cuttable(teams@),
                forall|s: int| 0 <= s < self.stats@.len() ==> {
                    &&& (#[trigger] self.stats@[s]).team < teams@.len()
                    &&& with_stats ==> self.stats@[s].goals_for <= i32::MAX && self.stats@[s].goals_against <= i32::MAX
                },
                lines_view(lines@) =~= table_text(self.stats@, teams@, with_stats).take(i as int),
            decreases self.stats@.len() - i,
        {
            let s = &self.stats[i];
            let mut l = padded_start(&dec_chars((i + 1) as u64), 2);
            let t = s.table_line_str(teams, with_stats);
            l.append(" ");
            l.append(t.as_str());
            proof {
                reveal_strlit(" ");
                assert(l@ =~= table_text(self.stats@, teams@, with_stats)[i as int]);
            }
            let ghost before = lines@;
            lines.push(l);
            proof {
                assert(lines_view(lines@) =~= lines_view(before).push(l@));
                assert(table_text(self.stats@, teams@, with_stats).take(i as int + 1) =~= table_text(
                    self.stats@,
                    teams@,
                    with_stats,
                ).take(i as int).push(table_text(self.stats@, teams@, with_stats)[i as int]));
            }
            i = i + 1;
        }
        lines
    }

    /// The report of the round, line by line (see [`report_text`]).
    pub fn report(&self, teams: &Vec<Team>) -> (res: Vec<String>)
        requires
            names_cuttable(teams@),
            forall|j: int| 0 <= j < self.pairings@.len() ==> {
                &&& (#[trigger] self.pairings@[j]).teams.0 < teams@.len()
                &&& self.pairings@[j].teams.1 < teams@.len()
                &&& forall|m: int| 0 <= m < self.pairings@[j].match_results@.len()
                    ==> (#[trigger] self.pairings@[j].match_results@[m]).result is Some
            },
            forall|s: int| 0 <= s < self.stats@.len() ==> {
                &&& (#[trigger] self.stats@[s]).team < teams@.len()
                &&& (self.mode == Mode::RoundRobin || self.mode == Mode::RankingSort) ==> self.stats@[s].goals_for
                    <= i32::MAX && self.stats@[s].goals_against <= i32::MAX
            },
        ensures
            lines_view(res@) == report_text(*self, teams@),
    {
        let mut head = String::from_str("Round: ");
        head.append(self.name.as_str());
        proof {
            reveal_strlit("Round: ");
        }
        proof {
            assert(head@ =~= seq!['R', 'o', 'u', 'n', 'd', ':', ' '] + self.name@);
        }
        let mut lines: Vec<String> = Vec::new();
        lines.push(head);
        proof {
            assert(lines_view(lines@) =~= seq![seq!['R', 'o', 'u', 'n', 'd', ':', ' '] + self.name@]);
        }
        let mut ms = self.match_lines(teams);
        let ghost l1 = lines@;
        let ghost m1 = ms@;
        lines.append(&mut ms);
        proof {
            assert(lines@ == l1 + m1);
            assert(lines_view(l1 + m1) =~= lines_view(l1) + lines_view(m1));
        }
        let empty = String::new();
        let ghost l2 = lines@;
        lines.push(empty);
        proof {
            assert(lines_view(lines@) =~= lines_view(l2).push(Seq::<char>::empty()));
        }
        let with_stats = match self.mode {
            Mode::Playoff => {
                proof {
                    assert(lines_view(lines@) =~= report_text(*self, teams@));
                }
                return lines;
            },
            Mode::Ranking => false,
            _ => true,
        };
        let mut ts = self.table_lines(teams, with_stats);
        let ghost t1 = ts@;
        ts.push(String::new());
        proof {
            assert(lines_view(ts@) =~= lines_view(t1).push(Seq::<char>::empty()));
        }
        let ghost l3 = lines@;
        let ghost t2 = ts@;
        lines.append(&mut ts);
        proof {
            assert(lines@ == l3 + t2);
            assert(lines_view(l3 + t2) =~= lines_view(l3) + lines_view(t2));
        }
        proof {
            assert(lines_view(lines@) =~= report_text(*self, teams@));
        }
        lines
    }
}


/// The report of a round is its name, the lines of its matches and an empty
/// line; then, but for a playoff, one line per place of its table and an
/// empty line. A table line holds the place (two columns), the team's
/// name and, for a round robin or `ranking_sort` round (every mode that
/// ranks by results), the goals scored and conceded, the goal difference
/// and the points; a `ranking` round lists place and name only.
#[verifier::spinoff_prover]
#[verifier::rlimit(60)]
pub proof fn lemma_report_lines(r: RoundResult, teams: Seq<Team>, i: int)
    requires
        0 <= i < r.stats@.len(),
    ensures
        ({
            let m = matches_text(r.pairings@, teams).len() + 2;
            let rep = report_text(r, teams);
            let s = r.stats@[i];
            let place = pad_start(dec((i + 1) as nat), 2) + seq![' '] + name_field(teams[s.team as int].name@);
            &&& rep[0] == seq!['R', 'o', 'u', 'n', 'd', ':', ' '] + r.name@
            &&& rep[m - 1] == Seq::<char>::empty()
            &&& r.mode == Mode::Playoff ==> rep.len() == m
            &&& r.mode != Mode::Playoff ==> rep.len() == m + r.stats@.len() + 1 && rep[(m + r.stats@.len()) as int]
                == Seq::<char>::empty()
            &&& r.mode == Mode::Ranking ==> rep[m + i] == place
            &&& (r.mode == Mode::RoundRobin || r.mode == Mode::RankingSort) ==> rep[m + i] == place + seq![' ']
                + pad_start(dec(s.goals_for as nat), 3) + seq!['-'] + pad_end(dec(s.goals_against as nat), 3)
                + seq![' '] + pad_start(dec_int(s.goals_for - s.goals_against), 3) + seq![' '] + pad_start(
                dec(s.points as nat),
                3,
            )
        }),
{
    let m = matches_text(r.pairings@, teams).len() + 2;
    let head = seq![seq!['R', 'o', 'u', 'n', 'd', ':', ' '] + r.name@];
    let body = (head + matches_text(r.pairings@, teams)).push(Seq::<char>::empty());
    assert(body.len() == m);
    assert(body[0] == head[0]);
    let s = r.stats@[i];
    let place = pad_start(dec((i + 1) as nat), 2) + seq![' '] + name_field(teams[s.team as int].name@);
    if r.mode == Mode::Ranking {
        let tt = table_text(r.stats@, teams, false);
        assert(report_text(r, teams) == body + tt.push(Seq::<char>::empty()));
        assert((body + tt.push(Seq::<char>::empty()))[m + i] == tt[i]);
        assert(tt[i] =~= place);
    } else if r.mode == Mode::RoundRobin || r.mode == Mode::RankingSort {
        let tt = table_text(r.stats@, teams, true);
        assert(report_text(r, teams) == body + tt.push(Seq::<char>::empty()));
        assert((body + tt.push(Seq::<char>::empty()))[m + i] == tt[i]);
        assert(tt[i] =~= place + seq![' '] + pad_start(dec(s.goals_for as nat), 3) + seq!['-'] + pad_end(
            dec(s.goals_against as nat),
            3,
        ) + seq![' '] + pad_start(dec_int(s.goals_for - s.goals_against), 3) + seq![' '] + pad_start(
            dec(s.points as nat),
            3,
        ));
    }
}

} // verus!
