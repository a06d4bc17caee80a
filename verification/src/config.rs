//! Tournament configuration: teams, formats and rounds, and the checks and
//! conversions that turn a parsed configuration file into a [`Config`].
use vstd::prelude::*;
use crate::flagcheck::{FlagCheck, Expr, has_flag, strings_view, contains_string};
use crate::rounds_graph::{toposort_nodes, toposort_of, edges_view};

verus! {

/// A team and its current Elo rating.
pub struct Team {
    pub id: String,
    pub name: String,
    pub elo: u32,
}

/// How a round is played.
#[derive(PartialEq, Eq, Structural, Clone, Copy, Debug)]
pub enum Mode {
    /// Every entrant plays every other one; a table ranks them.
    RoundRobin,
    /// Entrants meet in pairs (first and second, third and fourth, ...);
    /// every pairing needs a winner.
    Playoff,
    /// No matches; the entrants are listed as they came.
    Ranking,
    /// No matches; the entrants are ranked by points, goal difference and goals.
    RankingSort,
}

/// Criteria that rank teams in a table and settle drawn pairings.
#[derive(PartialEq, Eq, Structural, Clone, Copy, Debug)]
pub enum RankBy {
    Points,
    GoalDiff,
    Goals,
    VsPoints,
    VsGoalDiff,
    VsGoals,
    Extra,
    Penalties,
    AwayGoals,
    ReplayOnce,
    ReplayAlways,
}

/// Condition under which a team gets a flag.
#[derive(PartialEq, Eq, Structural, Clone, Copy, Debug)]
pub enum Cond {
    /// The team ends in the first `value` places of the round.
    RankMin,
}

/// A flag that an entrant gets when a condition holds at the end of a round.
pub struct SetFlag {
    pub cond: Cond,
    pub value: u32,
    pub flag: String,
}

impl SetFlag {
    /// A copy of this flag setting.
    pub fn copy(&self) -> (res: SetFlag)
        ensures
            res == *self,
    {
        SetFlag { cond: self.cond, value: self.value, flag: self.flag.clone() }
    }
}

/// A copy of an optional flag setting.
pub fn copy_set_flag(s: &Option<SetFlag>) -> (res: Option<SetFlag>)
    ensures
        res == *s,
{
    match s {
        Some(f) => Some(f.copy()),
        None => None,
    }
}

/// How the rounds of one kind are played.
pub struct Format {
    pub id: String,
    pub mode: Mode,
    /// Pairings given by hand: pairs of entrant numbers, counted from 1.
    pub order: Option<Vec<Vec<u32>>>,
    pub neutral: bool,
    pub random: bool,
    pub rank_by: Vec<RankBy>,
    /// Entrants bring their points and goals from the round they come from.
    pub copy: bool,
    pub legs: u32,
    pub points_for_win: u32,
    pub points_for_draw: u32,
}

/// Where an entrant of a round comes from.
pub enum EntrantType {
    /// The team with this index in the configuration.
    Team(usize),
    /// The team at this place (counted from 1) of an earlier round.
    Prev(usize, u32),
    /// The team that holds the flag paired with the first check that the
    /// flags set in an earlier round meet.
    PrevFlag(usize, Vec<(FlagCheck, String)>),
}

/// An entrant of a round.
pub struct Entrant {
    pub t: EntrantType,
    pub set_flag: Option<SetFlag>,
}

/// A round of the competition.
pub struct Round {
    pub id: String,
    pub name: String,
    /// Index of the round's format in [`Config::format`].
    pub format: usize,
    pub entrant: Vec<Entrant>,
}

/// A checked configuration. Rounds come in an order in which every round
/// comes after the rounds it takes entrants from.
pub struct Config {
    pub name: String,
    pub seed: Option<u32>,
    /// Index of the final round in [`Config::round`].
    pub root: usize,
    pub team: Vec<Team>,
    pub format: Vec<Format>,
    pub round: Vec<Round>,
}

/// The round an entrant comes from, if any.
pub open spec fn entrant_source(e: EntrantType) -> Option<usize> {
    match e {
        EntrantType::Team(_) => None,
        EntrantType::Prev(r, _) => Some(r),
        EntrantType::PrevFlag(r, _) => Some(r),
    }
}

/// Indices in a configuration point where they should: teams and formats
/// exist, and every round takes entrants only from rounds before it.
pub open spec fn config_wf(c: &Config) -> bool {
    &&& c.root < c.round@.len()
    &&& forall|r: int| 0 <= r < c.round@.len() ==> #[trigger] c.round@[r].format < c.format@.len()
    &&& forall|r: int, e: int|
        0 <= r < c.round@.len() && 0 <= e < c.round@[r].entrant@.len() ==> {
            let t = #[trigger] c.round@[r].entrant@[e].t;
            &&& (t matches EntrantType::Team(i) ==> i < c.team@.len())
            &&& (entrant_source(t) matches Some(p) ==> p < r)
        }
}

// ----------------------------------------------------------------------
// The configuration as parsed, before it is checked
// ----------------------------------------------------------------------

/// An entrant as written in a configuration file: a team (`id`), or a
/// place (`pos`) or flag checks (`if_flag`, pairs of a check and a flag) of
/// an earlier round (`prev`).
pub struct EntrantPars {
    pub id: Option<String>,
    pub prev: Option<String>,
    pub pos: Option<u32>,
    pub set_flag: Option<SetFlag>,
    pub if_flag: Option<Vec<String>>,
}

/// A round as written in a configuration file.
pub struct RoundPars {
    pub id: String,
    pub name: String,
    pub format: String,
    pub entrant: Vec<EntrantPars>,
}

/// A configuration file's contents.
pub struct ConfigPars {
    pub name: String,
    pub seed: Option<u32>,
    pub root: String,
    pub team: Vec<Team>,
    pub format: Vec<Format>,
    pub round: Vec<RoundPars>,
}

/// What is wrong with a configuration.
#[derive(PartialEq, Eq, Structural, Clone, Copy, Debug)]
pub enum ConfigErrorKind {
    DuplicateTeam,
    DuplicateFormat,
    DuplicateRound,
    FormatNotFound,
    /// An entrant sets both `id` and `prev`.
    IdAndPrev,
    /// An entrant sets neither `id` nor `prev`.
    NoIdOrPrev,
    TeamNotFound,
    PrevIsSelf,
    /// An entrant with `prev` sets both or neither of `pos` and `if_flag`.
    PosOrIfFlag,
    PrevNotFound,
    /// Rounds take entrants from each other in a cycle.
    Cycle,
    /// A flag check does not parse (the subject is the parser's message).
    BadFlagCheck,
    /// A flag check in `if_flag` has no flag after it.
    MissingFlag,
    RootNotFound,
}

/// What is wrong with a configuration, and the identifier (or message) it
/// concerns.
pub struct ConfigError {
    pub kind: ConfigErrorKind,
    pub subject: String,
}

/// Identifiers of teams.
pub open spec fn team_ids(v: Seq<Team>) -> Seq<Seq<char>> {
    v.map_values(|t: Team| t.id@)
}

/// Identifiers of formats.
pub open spec fn format_ids(v: Seq<Format>) -> Seq<Seq<char>> {
    v.map_values(|f: Format| f.id@)
}

/// Identifiers of rounds.
pub open spec fn round_ids(v: Seq<RoundPars>) -> Seq<Seq<char>> {
    v.map_values(|r: RoundPars| r.id@)
}

/// Index of the first identifier that repeats an earlier one.
pub open spec fn first_dup(s: Seq<Seq<char>>) -> Option<int>
    decreases s.len(),
{
    if s.len() == 0 {
        None
    } else {
        match first_dup(s.drop_last()) {
            Some(j) => Some(j),
            None => if has_flag(s.drop_last(), s.last()) {
                Some(s.len() - 1)
            } else {
                None
            },
        }
    }
}

/// What is wrong with an entrant of round `r`, if anything.
pub open spec fn entrant_problem(e: EntrantPars, r: RoundPars, tids: Seq<Seq<char>>, rids: Seq<Seq<char>>) -> Option<(ConfigErrorKind, Seq<char>)> {
    if e.id is Some && e.prev is Some {
        Some((ConfigErrorKind::IdAndPrev, r.id@))
    } else if e.id is None && e.prev is None {
        Some((ConfigErrorKind::NoIdOrPrev, r.id@))
    } else if e.id is Some {
        if has_flag(tids, e.id->Some_0@) {
            None
        } else {
            Some((ConfigErrorKind::TeamNotFound, e.id->Some_0@))
        }
    } else {
        let prev = e.prev->Some_0@;
        if prev == r.id@ {
            Some((ConfigErrorKind::PrevIsSelf, prev))
        } else if !((e.pos is None) != (e.if_flag is None)) {
            Some((ConfigErrorKind::PosOrIfFlag, r.id@))
        } else if !has_flag(rids, prev) {
            Some((ConfigErrorKind::PrevNotFound, prev))
        } else {
            None
        }
    }
}

/// The first problem among the entrants `es` of round `r`.
pub open spec fn entrants_problem(es: Seq<EntrantPars>, r: RoundPars, tids: Seq<Seq<char>>, rids: Seq<Seq<char>>) -> Option<(ConfigErrorKind, Seq<char>)>
    decreases es.len(),
{
    if es.len() == 0 {
        None
    } else {
        match entrants_problem(es.drop_last(), r, tids, rids) {
            Some(p) => Some(p),
            None => entrant_problem(es.last(), r, tids, rids),
        }
    }
}

/// The first problem of a round: its format, then its entrants.
pub open spec fn round_problem(r: RoundPars, fids: Seq<Seq<char>>, tids: Seq<Seq<char>>, rids: Seq<Seq<char>>) -> Option<(ConfigErrorKind, Seq<char>)> {
    if !has_flag(fids, r.format@) {
        Some((ConfigErrorKind::FormatNotFound, r.format@))
    } else {
        entrants_problem(r.entrant@, r, tids, rids)
    }
}

/// The first problem among the rounds `rs`.
pub open spec fn rounds_problem(rs: Seq<RoundPars>, fids: Seq<Seq<char>>, tids: Seq<Seq<char>>, rids: Seq<Seq<char>>) -> Option<(ConfigErrorKind, Seq<char>)>
    decreases rs.len(),
{
    if rs.len() == 0 {
        None
    } else {
        match rounds_problem(rs.drop_last(), fids, tids, rids) {
            Some(p) => Some(p),
            None => round_problem(rs.last(), fids, tids, rids),
        }
    }
}

/// The first problem of a configuration, in the order the checks run:
/// duplicate identifiers of teams, formats and rounds, then each round.
pub open spec fn check_problem(c: ConfigPars) -> Option<(ConfigErrorKind, Seq<char>)> {
    let tids = team_ids(c.team@);
    let fids = format_ids(c.format@);
    let rids = round_ids(c.round@);
    match first_dup(tids) {
        Some(j) => Some((ConfigErrorKind::DuplicateTeam, tids[j])),
        None => match first_dup(fids) {
            Some(j) => Some((ConfigErrorKind::DuplicateFormat, fids[j])),
            None => match first_dup(rids) {
                Some(j) => Some((ConfigErrorKind::DuplicateRound, rids[j])),
                None => rounds_problem(c.round@, fids, tids, rids),
            },
        },
    }
}

/// Index of the first occurrence of `x` in `s` (the length when absent).
pub open spec fn index_of(s: Seq<Seq<char>>, x: Seq<char>) -> nat
    decreases s.len(),
{
    if s.len() == 0 {
        0
    } else if s[0] == x {
        0
    } else {
        1 + index_of(s.drop_first(), x)
    }
}

/// Edges from each entrant's round to the round it comes from, of the
/// entrants `es` of round `i`.
pub open spec fn entrant_edges(es: Seq<EntrantPars>, i: nat, rids: Seq<Seq<char>>) -> Seq<(nat, nat)>
    decreases es.len(),
{
    if es.len() == 0 {
        seq![]
    } else {
        entrant_edges(es.drop_last(), i, rids) + match es.last().prev {
            Some(p) => seq![(i, index_of(rids, p@))],
            None => seq![],
        }
    }
}

/// Edges of the first `k` rounds.
pub open spec fn dep_edges(rs: Seq<RoundPars>, k: nat) -> Seq<(nat, nat)>
    decreases k,
{
    if k == 0 || k > rs.len() {
        seq![]
    } else {
        dep_edges(rs, (k - 1) as nat) + entrant_edges(rs[k - 1].entrant@, (k - 1) as nat, round_ids(rs))
    }
}

/// The outcome of checking a configuration: an order of its rounds in which
/// every round comes after the rounds it takes entrants from (the reverse of
/// petgraph's topological order of the graph from each round to those
/// rounds), or its first problem.
pub open spec fn verify_spec(c: ConfigPars) -> Result<Seq<nat>, (ConfigErrorKind, Seq<char>)> {
    match check_problem(c) {
        Some(p) => Err(p),
        None => match toposort_of(c.round@.len(), dep_edges(c.round@, c.round@.len())) {
            Ok(order) => Ok(order.reverse()),
            Err(n) => Err((ConfigErrorKind::Cycle, round_ids(c.round@)[n as int])),
        },
    }
}

/// `order` lists each round once, every round after the rounds it takes
/// entrants from.
pub open spec fn is_dependency_order(order: Seq<nat>, n: nat, edges: Seq<(nat, nat)>) -> bool {
    &&& order.len() == n
    &&& order.no_duplicates()
    &&& forall|i: int| 0 <= i < order.len() ==> #[trigger] order[i] < n
    &&& forall|e: int, i: int, j: int|
        #![trigger edges[e], order[i], order[j]]
        0 <= e < edges.len() && 0 <= i < n && 0 <= j < n && order[i] == edges[e].1 && order[j] == edges[e].0 ==> i < j
}

/// Number of entrants that name an earlier round, among the first `k` rounds.
pub open spec fn prev_count(rs: Seq<RoundPars>) -> nat {
    dep_edges(rs, rs.len()).len()
}

/// Checks identifiers for duplicates: the first identifier that repeats an
/// earlier one, or the identifiers.
pub fn verify_uniq(ids: &Vec<String>) -> (res: Result<Vec<String>, String>)
    ensures
        match first_dup(strings_view(ids@)) {
            Some(j) => res matches Err(d) && d@ == strings_view(ids@)[j],
            None => res matches Ok(v) && strings_view(v@) == strings_view(ids@),
        },
{
    let mut uniq: Vec<String> = Vec::new();
    let mut i: usize = 0;
    while i < ids.len()
        invariant
            i <= ids@.len(),
            strings_view(uniq@) == strings_view(ids@).take(i as int),
            first_dup(strings_view(ids@).take(i as int)) is None,
        decreases ids@.len() - i,
    {
        let id = ids[i].clone();
        let ghost sv = strings_view(ids@);
        proof {
            assert(sv.take(i as int + 1).drop_last() =~= sv.take(i as int));
            assert(sv.take(i as int + 1).last() == id@);
        }
        if contains_string(uniq.as_slice(), &id) {
            proof {
                lemma_first_dup_prefix(sv, i as int + 1);
            }
            return Err(id);
        }
        let ghost before = uniq@;
        uniq.push(id);
        proof {
            assert(strings_view(uniq@) =~= strings_view(before).push(sv[i as int]));
            assert(sv.take(i as int + 1) =~= sv.take(i as int).push(sv[i as int]));
        }
        i = i + 1;
    }
    proof {
        assert(strings_view(ids@).take(ids@.len() as int) =~= strings_view(ids@));
    }
    Ok(uniq)
}

/// A duplicate in a prefix is the first duplicate of the whole.
proof fn lemma_first_dup_prefix(s: Seq<Seq<char>>, k: int)
    requires
        0 <= k <= s.len(),
        first_dup(s.take(k)) is Some,
    ensures
        first_dup(s) == first_dup(s.take(k)),
    decreases s.len() - k,
{
    if k < s.len() {
        assert(s.take(k + 1).drop_last() =~= s.take(k));
        lemma_first_dup_prefix(s, k + 1);
    } else {
        assert(s.take(k) =~= s);
    }
}

/// View of a problem report.
pub open spec fn problem_view(e: ConfigError) -> (ConfigErrorKind, Seq<char>) {
    (e.kind, e.subject@)
}

fn problem(kind: ConfigErrorKind, subject: &String) -> (res: ConfigError)
    ensures
        problem_view(res) == (kind, subject@),
{
    ConfigError { kind, subject: subject.clone() }
}

/// What is wrong with an entrant of round `r`, if anything.
fn check_entrant(e: &EntrantPars, r: &RoundPars, tids: &Vec<String>, rids: &Vec<String>) -> (res: Option<ConfigError>)
    ensures
        match entrant_problem(*e, *r, strings_view(tids@), strings_view(rids@)) {
            Some(p) => res matches Some(x) && problem_view(x) == p,
            None => res is None,
        },
{
    if e.id.is_some() && e.prev.is_some() {
        return Some(problem(ConfigErrorKind::IdAndPrev, &r.id));
    }
    if e.id.is_none() && e.prev.is_none() {
        return Some(problem(ConfigErrorKind::NoIdOrPrev, &r.id));
    }
    match &e.id {
        Some(id) => {
            if contains_string(tids.as_slice(), id) {
                None
            } else {
                Some(problem(ConfigErrorKind::TeamNotFound, id))
            }
        },
        None => {
            let prev = e.prev.as_ref().unwrap();
            if *prev == r.id {
                return Some(problem(ConfigErrorKind::PrevIsSelf, prev));
            }
            if !(e.pos.is_none() != e.if_flag.is_none()) {
                return Some(problem(ConfigErrorKind::PosOrIfFlag, &r.id));
            }
            if !contains_string(rids.as_slice(), prev) {
                return Some(problem(ConfigErrorKind::PrevNotFound, prev));
            }
            None
        },
    }
}

/// The first problem of a round.
fn check_round(r: &RoundPars, fids: &Vec<String>, tids: &Vec<String>, rids: &Vec<String>) -> (res: Option<ConfigError>)
    ensures
        match round_problem(*r, strings_view(fids@), strings_view(tids@), strings_view(rids@)) {
            Some(p) => res matches Some(x) && problem_view(x) == p,
            None => res is None,
        },
{
    if !contains_string(fids.as_slice(), &r.format) {
        return Some(problem(ConfigErrorKind::FormatNotFound, &r.format));
    }
    let ghost es = r.entrant@;
    let ghost t = strings_view(tids@);
    let ghost rv = strings_view(rids@);
    let mut i: usize = 0;
    while i < r.entrant.len()
        invariant
            i <= es.len(),
            es == r.entrant@,
            t == strings_view(tids@),
            rv == strings_view(rids@),
            has_flag(strings_view(fids@), r.format@),
            entrants_problem(es.take(i as int), *r, t, rv) is None,
        decreases es.len() - i,
    {
        proof {
            assert(es.take(i as int + 1).drop_last() =~= es.take(i as int));
            assert(es.take(i as int + 1).last() == es[i as int]);
        }
        match check_entrant(&r.entrant[i], r, tids, rids) {
            Some(p) => {
                proof {
                    lemma_entrants_problem_prefix(es, *r, t, rv, i as int + 1);
                }
                return Some(p);
            },
            None => {},
        }
        i = i + 1;
    }
    proof {
        assert(es.take(es.len() as int) =~= es);
    }
    None
}

proof fn lemma_entrants_problem_prefix(es: Seq<EntrantPars>, r: RoundPars, t: Seq<Seq<char>>, rv: Seq<Seq<char>>, k: int)
    requires
        0 <= k <= es.len(),
        entrants_problem(es.take(k), r, t, rv) is Some,
    ensures
        entrants_problem(es, r, t, rv) == entrants_problem(es.take(k), r, t, rv),
    decreases es.len() - k,
{
    if k < es.len() {
        assert(es.take(k + 1).drop_last() =~= es.take(k));
        lemma_entrants_problem_prefix(es, r, t, rv, k + 1);
    } else {
        assert(es.take(k) =~= es);
    }
}

proof fn lemma_rounds_problem_prefix(rs: Seq<RoundPars>, f: Seq<Seq<char>>, t: Seq<Seq<char>>, rv: Seq<Seq<char>>, k: int)
    requires
        0 <= k <= rs.len(),
        rounds_problem(rs.take(k), f, t, rv) is Some,
    ensures
        rounds_problem(rs, f, t, rv) == rounds_problem(rs.take(k), f, t, rv),
    decreases rs.len() - k,
{
    if k < rs.len() {
        assert(rs.take(k + 1).drop_last() =~= rs.take(k));
        lemma_rounds_problem_prefix(rs, f, t, rv, k + 1);
    } else {
        assert(rs.take(k) =~= rs);
    }
}

/// The identifiers of the teams.
pub(crate) fn collect_team_ids(v: &Vec<Team>) -> (res: Vec<String>)
    ensures
        strings_view(res@) == team_ids(v@),
{
    let mut res: Vec<String> = Vec::new();
    let mut i: usize = 0;
    while i < v.len()
        invariant
            i <= v@.len(),
            strings_view(res@) =~= team_ids(v@).take(i as int),
        decreases v@.len() - i,
    {
        let ghost before = res@;
        res.push(v[i].id.clone());
        proof {
            assert(strings_view(res@) =~= strings_view(before).push(v@[i as int].id@));
            assert(team_ids(v@).take(i as int + 1) =~= team_ids(v@).take(i as int).push(v@[i as int].id@));
        }
        i = i + 1;
    }
    proof {
        assert(team_ids(v@).take(v@.len() as int) =~= team_ids(v@));
    }
    res
}

/// The identifiers of the formats.
pub(crate) fn collect_format_ids(v: &Vec<Format>) -> (res: Vec<String>)
    ensures
        strings_view(res@) == format_ids(v@),
{
    let mut res: Vec<String> = Vec::new();
    let mut i: usize = 0;
    while i < v.len()
        invariant
            i <= v@.len(),
            strings_view(res@) =~= format_ids(v@).take(i as int),
        decreases v@.len() - i,
    {
        let ghost before = res@;
        res.push(v[i].id.clone());
        proof {
            assert(strings_view(res@) =~= strings_view(before).push(v@[i as int].id@));
            assert(format_ids(v@).take(i as int + 1) =~= format_ids(v@).take(i as int).push(v@[i as int].id@));
        }
        i = i + 1;
    }
    proof {
        assert(format_ids(v@).take(v@.len() as int) =~= format_ids(v@));
    }
    res
}

/// The identifiers of the rounds.
pub(crate) fn collect_round_ids(v: &Vec<RoundPars>) -> (res: Vec<String>)
    ensures
        strings_view(res@) == round_ids(v@),
{
    let mut res: Vec<String> = Vec::new();
    let mut i: usize = 0;
    while i < v.len()
        invariant
            i <= v@.len(),
            strings_view(res@) =~= round_ids(v@).take(i as int),
        decreases v@.len() - i,
    {
        let ghost before = res@;
        res.push(v[i].id.clone());
        proof {
            assert(strings_view(res@) =~= strings_view(before).push(v@[i as int].id@));
            assert(round_ids(v@).take(i as int + 1) =~= round_ids(v@).take(i as int).push(v@[i as int].id@));
        }
        i = i + 1;
    }
    proof {
        assert(round_ids(v@).take(v@.len() as int) =~= round_ids(v@));
    }
    res
}

/// Index of the first occurrence of `x`.
pub fn find_string(v: &Vec<String>, x: &String) -> (res: usize)
    ensures
        res == index_of(strings_view(v@), x@),
        has_flag(strings_view(v@), x@) ==> res < v@.len() && strings_view(v@)[res as int] == x@,
{
    let ghost sv = strings_view(v@);
    let mut i: usize = 0;
    proof {
        assert(sv.skip(0) =~= sv);
    }
    while i < v.len()
        invariant
            i <= v@.len(),
            sv == strings_view(v@),
            forall|j: int| 0 <= j < i ==> sv[j] != x@,
            index_of(sv, x@) == i + index_of(sv.skip(i as int), x@),
        decreases v@.len() - i,
    {
        proof {
            assert(sv.skip(i as int).drop_first() =~= sv.skip(i as int + 1));
            assert(sv.skip(i as int)[0] == sv[i as int]);
        }
        if v[i] == *x {
            return i;
        }
        i = i + 1;
    }
    proof {
        assert(sv.skip(i as int).len() == 0);
    }
    i
}

/// The edges of the entrants `es` of round `ri`.
fn push_entrant_edges(edges: &mut Vec<(usize, usize)>, es: &Vec<EntrantPars>, ri: usize, rids: &Vec<String>)
    ensures
        edges_view(final(edges)@) == edges_view(old(edges)@) + entrant_edges(es@, ri as nat, strings_view(rids@)),
{
    let ghost e0 = edges_view(edges@);
    let mut i: usize = 0;
    while i < es.len()
        invariant
            i <= es@.len(),
            edges_view(edges@) == e0 + entrant_edges(es@.take(i as int), ri as nat, strings_view(rids@)),
        decreases es@.len() - i,
    {
        proof {
            assert(es@.take(i as int + 1).drop_last() =~= es@.take(i as int));
            assert(es@.take(i as int + 1).last() == es@[i as int]);
        }
        let ghost before = edges@;
        if let Some(ref prev) = es[i].prev {
            let j = find_string(rids, prev);
            edges.push((ri, j));
            proof {
                assert(edges_view(edges@) =~= edges_view(before).push((ri as nat, j as nat)));
            }
        }
        proof {
            assert(edges_view(edges@) =~= e0 + entrant_edges(es@.take(i as int + 1), ri as nat, strings_view(rids@)));
        }
        i = i + 1;
    }
    proof {
        assert(es@.take(es@.len() as int) =~= es@);
    }
}

/// A present identifier has its first index within the list.
proof fn lemma_index_of(s: Seq<Seq<char>>, x: Seq<char>)
    requires
        has_flag(s, x),
    ensures
        index_of(s, x) < s.len(),
        s[index_of(s, x) as int] == x,
    decreases s.len(),
{
    if s[0] != x {
        let i = choose|i: int| 0 <= i < s.len() && s[i] == x;
        assert(s.drop_first()[i - 1] == x);
        lemma_index_of(s.drop_first(), x);
    }
}

/// Edges of entrants without problems point from their round to an existing round.
proof fn lemma_entrant_edges_in_range(es: Seq<EntrantPars>, r: RoundPars, i: nat, t: Seq<Seq<char>>, rv: Seq<Seq<char>>)
    requires
        entrants_problem(es, r, t, rv) is None,
    ensures
        forall|k: int| 0 <= k < entrant_edges(es, i, rv).len() ==> (#[trigger] entrant_edges(es, i, rv)[k]).0 == i
            && entrant_edges(es, i, rv)[k].1 < rv.len(),
    decreases es.len(),
{
    if es.len() > 0 {
        lemma_entrant_edges_in_range(es.drop_last(), r, i, t, rv);
        let a = entrant_edges(es.drop_last(), i, rv);
        if let Some(p) = es.last().prev {
            lemma_index_of(rv, p@);
        }
        assert forall|k: int| 0 <= k < entrant_edges(es, i, rv).len() implies (#[trigger] entrant_edges(es, i, rv)[k]).0 == i
            && entrant_edges(es, i, rv)[k].1 < rv.len() by {
            if k < a.len() {
                assert(entrant_edges(es, i, rv)[k] == a[k]);
            }
        }
    }
}

/// Edges of rounds without problems point between existing rounds.
proof fn lemma_dep_edges_in_range(rs: Seq<RoundPars>, k: nat, f: Seq<Seq<char>>, t: Seq<Seq<char>>)
    requires
        k <= rs.len(),
        rounds_problem(rs.take(k as int), f, t, round_ids(rs)) is None,
    ensures
        forall|e: int| 0 <= e < dep_edges(rs, k).len() ==> (#[trigger] dep_edges(rs, k)[e]).0 < k
            && dep_edges(rs, k)[e].1 < rs.len(),
    decreases k,
{
    if k > 0 {
        let rv = round_ids(rs);
        assert(rs.take(k as int).drop_last() =~= rs.take(k as int - 1));
        assert(rs.take(k as int).last() == rs[k - 1]);
        lemma_dep_edges_in_range(rs, (k - 1) as nat, f, t);
        lemma_entrant_edges_in_range(rs[k - 1].entrant@, rs[k - 1], (k - 1) as nat, t, rv);
        let a = dep_edges(rs, (k - 1) as nat);
        let b = entrant_edges(rs[k - 1].entrant@, (k - 1) as nat, rv);
        assert forall|e: int| 0 <= e < dep_edges(rs, k).len() implies (#[trigger] dep_edges(rs, k)[e]).0 < k
            && dep_edges(rs, k)[e].1 < rs.len() by {
            if e < a.len() {
                assert(dep_edges(rs, k)[e] == a[e]);
            } else {
                assert(dep_edges(rs, k)[e] == b[e - a.len()]);
            }
        }
    }
}

/// Reversed, petgraph's order puts every round after the rounds it takes
/// entrants from.
proof fn lemma_reverse_topological(order: Seq<nat>, n: nat, edges: Seq<(nat, nat)>)
    requires
        crate::rounds_graph::is_topological_order(order, n, edges),
    ensures
        is_dependency_order(order.reverse(), n, edges),
{
    let r = order.reverse();
    assert forall|i: int, j: int| 0 <= i < r.len() && 0 <= j < r.len() && i != j implies r[i] != r[j] by {
        assert(r[i] == order[n - 1 - i]);
        assert(r[j] == order[n - 1 - j]);
    }
    assert forall|i: int| 0 <= i < r.len() implies #[trigger] r[i] < n by {
        assert(r[i] == order[n - 1 - i]);
    }
    assert forall|e: int, i: int, j: int|
        #![trigger edges[e], r[i], r[j]]
        0 <= e < edges.len() && 0 <= i < n && 0 <= j < n && r[i] == edges[e].1 && r[j] == edges[e].0 implies i < j by {
        assert(r[i] == order[n - 1 - i]);
        assert(r[j] == order[n - 1 - j]);
        assert(order[n - 1 - j] == edges[e].0 && order[n - 1 - i] == edges[e].1);
    }
}

/// Some order lists each round once, every round after the rounds it takes
/// entrants from.
pub open spec fn has_dependency_order(n: nat, edges: Seq<(nat, nat)>) -> bool {
    exists|order: Seq<nat>| is_dependency_order(order, n, edges)
}

/// A dependency order read backwards is a topological order.
proof fn lemma_reverse_dependency(order: Seq<nat>, n: nat, edges: Seq<(nat, nat)>)
    requires
        is_dependency_order(order, n, edges),
    ensures
        crate::rounds_graph::is_topological_order(order.reverse(), n, edges),
{
    let r = order.reverse();
    assert forall|i: int, j: int| 0 <= i < r.len() && 0 <= j < r.len() && i != j implies r[i] != r[j] by {
        assert(r[i] == order[n - 1 - i]);
        assert(r[j] == order[n - 1 - j]);
    }
    assert forall|i: int| 0 <= i < r.len() implies #[trigger] r[i] < n by {
        assert(r[i] == order[n - 1 - i]);
    }
    assert forall|e: int, i: int, j: int|
        #![trigger edges[e], r[i], r[j]]
        0 <= e < edges.len() && 0 <= i < n && 0 <= j < n && r[i] == edges[e].0 && r[j] == edges[e].1 implies i < j by {
        assert(r[i] == order[n - 1 - i]);
        assert(r[j] == order[n - 1 - j]);
        assert(order[n - 1 - j] == edges[e].1 && order[n - 1 - i] == edges[e].0);
    }
}

/// The checks of the entrants never report a cycle.
proof fn lemma_entrants_problem_kind(es: Seq<EntrantPars>, r: RoundPars, tids: Seq<Seq<char>>, rids: Seq<Seq<char>>)
    ensures
        entrants_problem(es, r, tids, rids) matches Some(p) ==> p.0 != ConfigErrorKind::Cycle,
    decreases es.len(),
{
    if es.len() > 0 {
        lemma_entrants_problem_kind(es.drop_last(), r, tids, rids);
    }
}

/// Without a topological order there is no dependency order either.
proof fn lemma_no_dependency_order(n: nat, edges: Seq<(nat, nat)>)
    requires
        !crate::rounds_graph::has_topological_order(n, edges),
    ensures
        !has_dependency_order(n, edges),
{
    if has_dependency_order(n, edges) {
        let order = choose|order: Seq<nat>| is_dependency_order(order, n, edges);
        lemma_reverse_dependency(order, n, edges);
        assert(crate::rounds_graph::is_topological_order(order.reverse(), n, edges));
    }
}

/// Checks a configuration: identifiers are unique, every round's format,
/// teams and earlier rounds exist, entrants are well formed, and rounds do
/// not take entrants from each other in a cycle. Gives the rounds in an
/// order in which each comes after the rounds it takes entrants from, or
/// the first problem. A faulty configuration is not a reason to stop the
/// process: each fault comes back as an error value, and the program that
/// reads the file reports it and exits.
pub fn verify(config: &ConfigPars) -> (res: Result<Vec<usize>, ConfigError>)
    requires
        config.round@.len() + 1 < u32::MAX,
        prev_count(config.round@) + 1 < u32::MAX,
    ensures
        match verify_spec(*config) {
            Ok(order) => res matches Ok(v) && v@.map_values(|x: usize| x as nat) == order,
            Err(p) => res matches Err(e) && problem_view(e) == p,
        },
        res matches Ok(v) ==> is_dependency_order(
            v@.map_values(|x: usize| x as nat),
            config.round@.len(),
            dep_edges(config.round@, config.round@.len()),
        ),
        res matches Err(e) && e.kind == ConfigErrorKind::Cycle ==> !has_dependency_order(
            config.round@.len(),
            dep_edges(config.round@, config.round@.len()),
        ),
{
    let team_id_list = collect_team_ids(&config.team);
    let tids = match verify_uniq(&team_id_list) {
        Ok(v) => v,
        Err(e) => return Err(ConfigError { kind: ConfigErrorKind::DuplicateTeam, subject: e }),
    };
    let format_id_list = collect_format_ids(&config.format);
    let fids = match verify_uniq(&format_id_list) {
        Ok(v) => v,
        Err(e) => return Err(ConfigError { kind: ConfigErrorKind::DuplicateFormat, subject: e }),
    };
    let round_id_list = collect_round_ids(&config.round);
    let rids = match verify_uniq(&round_id_list) {
        Ok(v) => v,
        Err(e) => return Err(ConfigError { kind: ConfigErrorKind::DuplicateRound, subject: e }),
    };
    let ghost rs = config.round@;
    let ghost f = strings_view(fids@);
    let ghost t = strings_view(tids@);
    let ghost rv = strings_view(rids@);
    let mut i: usize = 0;
    while i < config.round.len()
        invariant
            i <= rs.len(),
            rs == config.round@,
            f == format_ids(config.format@),
            t == team_ids(config.team@),
            rv == round_ids(rs),
            f == strings_view(fids@),
            t == strings_view(tids@),
            rv == strings_view(rids@),
            check_problem(*config) == rounds_problem(rs, f, t, rv),
            rounds_problem(rs.take(i as int), f, t, rv) is None,
        decreases rs.len() - i,
    {
        proof {
            assert(rs.take(i as int + 1).drop_last() =~= rs.take(i as int));
            assert(rs.take(i as int + 1).last() == rs[i as int]);
        }
        match check_round(&config.round[i], &fids, &tids, &rids) {
            Some(p) => {
                proof {
                    lemma_rounds_problem_prefix(rs, f, t, rv, i as int + 1);
                    lemma_entrants_problem_kind(rs[i as int].entrant@, rs[i as int], t, rv);
                }
                return Err(p);
            },
            None => {},
        }
        i = i + 1;
    }
    proof {
        assert(rs.take(rs.len() as int) =~= rs);
        assert(check_problem(*config) is None);
    }
    // the graph from each round to the rounds it takes entrants from
    let mut edges: Vec<(usize, usize)> = Vec::new();
    let mut ri: usize = 0;
    while ri < config.round.len()
        invariant
            ri <= rs.len(),
            rs == config.round@,
            rv == strings_view(rids@),
            rv == round_ids(rs),
            edges_view(edges@) == dep_edges(rs, ri as nat),
        decreases rs.len() - ri,
    {
        push_entrant_edges(&mut edges, &config.round[ri].entrant, ri, &rids);
        ri = ri + 1;
    }
    proof {
        lemma_dep_edges_in_range(rs, rs.len(), f, t);
        assert forall|k: int| 0 <= k < edges@.len() implies (#[trigger] edges@[k]).0 < rs.len() && edges@[k].1 < rs.len() by {
            assert(edges_view(edges@)[k] == dep_edges(rs, rs.len())[k]);
        }
    }
    match toposort_nodes(config.round.len(), &edges) {
        Ok(sorted) => {
            let mut res: Vec<usize> = Vec::new();
            let mut k: usize = sorted.len();
            let ghost sv = sorted@.map_values(|x: usize| x as nat);
            while k > 0
                invariant
                    k <= sorted@.len(),
                    sv == sorted@.map_values(|x: usize| x as nat),
                    res@.map_values(|x: usize| x as nat) =~= sv.reverse().take(sorted@.len() - k),
                decreases k,
            {
                let ghost before = res@;
                res.push(sorted[k - 1]);
                proof {
                    assert(res@.map_values(|x: usize| x as nat) =~= before.map_values(|x: usize| x as nat).push(sv[k - 1]));
                    assert(sv.reverse().take(sorted@.len() - k + 1) =~= sv.reverse().take(sorted@.len() - k).push(sv[k - 1]));
                }
                k = k - 1;
            }
            proof {
                assert(sv.reverse().take(sorted@.len() as int) =~= sv.reverse());
                lemma_reverse_topological(sv, rs.len(), dep_edges(rs, rs.len()));
            }
            Ok(res)
        },
        Err(c) => {
            proof {
                assert(rv[c as int] == strings_view(rids@)[c as int]);
                lemma_no_dependency_order(rs.len(), dep_edges(rs, rs.len()));
            }
            Err(problem(ConfigErrorKind::Cycle, &rids[c]))
        },
    }
}

// ----------------------------------------------------------------------
// Copies
// ----------------------------------------------------------------------

/// Flag checks as expressions with their flags.
pub open spec fn checks_view(c: Seq<(FlagCheck, String)>) -> Seq<(Expr, Seq<char>)> {
    c.map_values(|x: (FlagCheck, String)| (x.0.expr(), x.1@))
}

/// Where an entrant comes from, as values.
pub enum EntrantView {
    Team(usize),
    Prev(usize, u32),
    PrevFlag(usize, Seq<(Expr, Seq<char>)>),
}

/// View of where an entrant comes from.
pub open spec fn entrant_view(t: EntrantType) -> EntrantView {
    match t {
        EntrantType::Team(i) => EntrantView::Team(i),
        EntrantType::Prev(r, p) => EntrantView::Prev(r, p),
        EntrantType::PrevFlag(r, c) => EntrantView::PrevFlag(r, checks_view(c@)),
    }
}

/// View of a given order of games.
pub open spec fn order_view(o: Option<Vec<Vec<u32>>>) -> Option<Seq<Seq<u32>>> {
    match o {
        Some(g) => Some(crate::gen_pairing::games_view(g@)),
        None => None,
    }
}

/// Two formats hold the same values.
pub open spec fn same_format(a: Format, b: Format) -> bool {
    &&& a.id@ == b.id@
    &&& a.mode == b.mode
    &&& order_view(a.order) == order_view(b.order)
    &&& a.neutral == b.neutral
    &&& a.random == b.random
    &&& a.rank_by@ == b.rank_by@
    &&& a.copy == b.copy
    &&& a.legs == b.legs
    &&& a.points_for_win == b.points_for_win
    &&& a.points_for_draw == b.points_for_draw
}

/// Two rounds hold the same values.
pub open spec fn same_round(a: Round, b: Round) -> bool {
    &&& a.id@ == b.id@
    &&& a.name@ == b.name@
    &&& a.format == b.format
    &&& a.entrant@.len() == b.entrant@.len()
    &&& forall|m: int| 0 <= m < a.entrant@.len() ==> {
        &&& entrant_view(#[trigger] a.entrant@[m].t) == entrant_view(b.entrant@[m].t)
        &&& a.entrant@[m].set_flag == b.entrant@[m].set_flag
    }
}

/// Two configurations hold the same values.
pub open spec fn same_config(a: Config, b: Config) -> bool {
    &&& a.name@ == b.name@
    &&& a.seed == b.seed
    &&& a.root == b.root
    &&& a.team@ == b.team@
    &&& a.format@.len() == b.format@.len()
    &&& forall|i: int| 0 <= i < a.format@.len() ==> same_format(#[trigger] a.format@[i], b.format@[i])
    &&& a.round@.len() == b.round@.len()
    &&& forall|i: int| 0 <= i < a.round@.len() ==> same_round(#[trigger] a.round@[i], b.round@[i])
}

impl Team {
    /// A copy of this team.
    pub fn copy(&self) -> (res: Team)
        ensures
            res == *self,
    {
        Team { id: self.id.clone(), name: self.name.clone(), elo: self.elo }
    }
}

impl Format {
    /// A copy of this format.
    pub fn copy(&self) -> (res: Format)
        ensures
            same_format(res, *self),
    {
        let order = match &self.order {
            Some(g) => Some(crate::gen_pairing::copy_games(g)),
            None => None,
        };
        let rank_by = self.rank_by.clone();
        assert(rank_by@ =~= self.rank_by@);
        Format {
            id: self.id.clone(),
            mode: self.mode,
            order,
            neutral: self.neutral,
            random: self.random,
            rank_by,
            copy: self.copy,
            legs: self.legs,
            points_for_win: self.points_for_win,
            points_for_draw: self.points_for_draw,
        }
    }
}

/// A copy of flag checks.
fn copy_checks(c: &Vec<(FlagCheck, String)>) -> (res: Vec<(FlagCheck, String)>)
    ensures
        checks_view(res@) == checks_view(c@),
{
    let mut res: Vec<(FlagCheck, String)> = Vec::new();
    let mut i: usize = 0;
    while i < c.len()
        invariant
            i <= c@.len(),
            checks_view(res@) =~= checks_view(c@).take(i as int),
        decreases c@.len() - i,
    {
        let ghost before = res@;
        res.push((c[i].0.copy(), c[i].1.clone()));
        proof {
            assert(checks_view(res@) =~= checks_view(before).push(checks_view(c@)[i as int]));
            assert(checks_view(c@).take(i as int + 1) =~= checks_view(c@).take(i as int).push(checks_view(c@)[i as int]));
        }
        i = i + 1;
    }
    proof {
        assert(checks_view(c@).take(c@.len() as int) =~= checks_view(c@));
    }
    res
}

impl Round {
    /// A copy of this round.
    pub fn copy(&self) -> (res: Round)
        ensures
            same_round(res, *self),
    {
        let mut entrant: Vec<Entrant> = Vec::new();
        let mut i: usize = 0;
        while i < self.entrant.len()
            invariant
                i <= self.entrant@.len(),
                entrant@.len() == i,
                forall|m: int| 0 <= m < i ==> {
                    &&& entrant_view(#[trigger] entrant@[m].t) == entrant_view(self.entrant@[m].t)
                    &&& entrant@[m].set_flag == self.entrant@[m].set_flag
                },
            decreases self.entrant@.len() - i,
        {
            let e = &self.entrant[i];
            let t = match &e.t {
                EntrantType::Team(x) => EntrantType::Team(*x),
                EntrantType::Prev(r, p) => EntrantType::Prev(*r, *p),
                EntrantType::PrevFlag(r, c) => EntrantType::PrevFlag(*r, copy_checks(c)),
            };
            entrant.push(Entrant { t, set_flag: copy_set_flag(&e.set_flag) });
            i = i + 1;
        }
        Round { id: self.id.clone(), name: self.name.clone(), format: self.format, entrant }
    }
}

impl Config {
    /// A copy of this configuration, to run the tournament again; a copy of
    /// a checked configuration is checked too.
    pub fn copy(&self) -> (res: Config)
        ensures
            same_config(res, *self),
            config_wf(self) ==> config_wf(&res),
    {
        let mut team: Vec<Team> = Vec::new();
        let mut i: usize = 0;
        while i < self.team.len()
            invariant
                i <= self.team@.len(),
                team@ =~= self.team@.take(i as int),
            decreases self.team@.len() - i,
        {
            team.push(self.team[i].copy());
            i = i + 1;
        }
        let mut format: Vec<Format> = Vec::new();
        let mut i: usize = 0;
        while i < self.format.len()
            invariant
                i <= self.format@.len(),
                format@.len() == i,
                forall|k: int| 0 <= k < i ==> same_format(#[trigger] format@[k], self.format@[k]),
            decreases self.format@.len() - i,
        {
            format.push(self.format[i].copy());
            i = i + 1;
        }
        let mut round: Vec<Round> = Vec::new();
        let mut i: usize = 0;
        while i < self.round.len()
            invariant
                i <= self.round@.len(),
                round@.len() == i,
                forall|k: int| 0 <= k < i ==> same_round(#[trigger] round@[k], self.round@[k]),
            decreases self.round@.len() - i,
        {
            round.push(self.round[i].copy());
            i = i + 1;
        }
        proof {
            assert(self.team@.take(self.team@.len() as int) =~= self.team@);
        }
        let res = Config { name: self.name.clone(), seed: self.seed, root: self.root, team, format, round };
        proof {
            if config_wf(self) {
                lemma_same_config_wf(res, *self);
            }
        }
        res
    }
}

/// Configurations that hold the same values are checked alike.
proof fn lemma_same_config_wf(a: Config, b: Config)
    requires
        same_config(a, b),
        config_wf(&b),
    ensures
        config_wf(&a),
{
    assert forall|r: int| 0 <= r < a.round@.len() implies #[trigger] a.round@[r].format < a.format@.len() by {
        assert(same_round(a.round@[r], b.round@[r]));
    }
    assert forall|r: int, e: int| 0 <= r < a.round@.len() && 0 <= e < a.round@[r].entrant@.len() implies {
        let t = #[trigger] a.round@[r].entrant@[e].t;
        &&& (t matches EntrantType::Team(i) ==> i < a.team@.len())
        &&& (entrant_source(t) matches Some(p) ==> p < r)
    } by {
        assert(same_round(a.round@[r], b.round@[r]));
        assert(entrant_view(a.round@[r].entrant@[e].t) == entrant_view(b.round@[r].entrant@[e].t));
        let tb = b.round@[r].entrant@[e].t;
        assert(tb == b.round@[r].entrant@[e].t);
    }
}

} // verus!
