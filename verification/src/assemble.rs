//! Assembling a checked [`Config`] from a parsed configuration file.
use vstd::prelude::*;
use crate::config::{
    Config, ConfigError, ConfigErrorKind, ConfigPars, Entrant, EntrantPars, EntrantType, Round, RoundPars,
    check_problem, checks_view, config_wf, has_dependency_order, copy_set_flag, dep_edges, entrant_problem, entrant_source, entrants_problem,
    find_string, format_ids, index_of, is_dependency_order, prev_count, problem_view, round_ids, round_problem,
    rounds_problem, team_ids, verify, verify_spec,
};
use crate::flagcheck::{Expr, FlagCheck, has_flag, parse_input, strings_view};

verus! {

/// The checks of an `if_flag` list (a check, then the flag it gives, and so
/// on) as expressions with their flags, or the first problem: a check that
/// does not parse (with the parser's message), or a check with no flag
/// after it.
pub open spec fn checks_spec(s: Seq<Seq<char>>) -> Result<Seq<(Expr, Seq<char>)>, (ConfigErrorKind, Seq<char>)>
    decreases s.len(),
{
    if s.len() == 0 {
        Ok(seq![])
    } else {
        match parse_input(s[0]) {
            Err(m) => Err((ConfigErrorKind::BadFlagCheck, m)),
            Ok(e) => if s.len() == 1 {
                Err((ConfigErrorKind::MissingFlag, s[0]))
            } else {
                match checks_spec(s.skip(2)) {
                    Ok(rest) => Ok(seq![(e, s[1])] + rest),
                    Err(p) => Err(p),
                }
            },
        }
    }
}

/// `p` in front of the checks of an outcome.
pub open spec fn prepend_checks(
    p: Seq<(Expr, Seq<char>)>,
    r: Result<Seq<(Expr, Seq<char>)>, (ConfigErrorKind, Seq<char>)>,
) -> Result<Seq<(Expr, Seq<char>)>, (ConfigErrorKind, Seq<char>)> {
    match r {
        Ok(x) => Ok(p + x),
        Err(e) => Err(e),
    }
}

/// Builds the flag checks of an `if_flag` list.
fn build_checks(if_flag: &Vec<String>) -> (res: Result<Vec<(FlagCheck, String)>, ConfigError>)
    ensures
        match checks_spec(strings_view(if_flag@)) {
            Ok(c) => res matches Ok(v) && checks_view(v@) == c,
            Err(p) => res matches Err(e) && problem_view(e) == p,
        },
{
    let ghost s = strings_view(if_flag@);
    let mut checks: Vec<(FlagCheck, String)> = Vec::new();
    let mut i: usize = 0;
    proof {
        assert(s.skip(0) =~= s);
        assert(checks_view(checks@) =~= Seq::<(Expr, Seq<char>)>::empty());
        assert(prepend_checks(checks_view(checks@), checks_spec(s)) == checks_spec(s)) by {
            match checks_spec(s) {
                Ok(x) => {
                    assert(checks_view(checks@) + x =~= x);
                },
                Err(_) => {},
            }
        }
    }
    while i < if_flag.len()
        invariant
            i <= s.len(),
            s == strings_view(if_flag@),
            checks_spec(s) == prepend_checks(checks_view(checks@), checks_spec(s.skip(i as int))),
        decreases s.len() - i,
    {
        let ghost t = s.skip(i as int);
        proof {
            assert(t[0] == s[i as int]);
        }
        let check_str = &if_flag[i];
        match FlagCheck::new(check_str.as_str()) {
            Err(m) => {
                return Err(ConfigError { kind: ConfigErrorKind::BadFlagCheck, subject: m });
            },
            Ok(fc) => {
                if i + 1 >= if_flag.len() {
                    proof {
                        assert(t.len() == 1);
                    }
                    return Err(ConfigError { kind: ConfigErrorKind::MissingFlag, subject: check_str.clone() });
                }
                let flag = if_flag[i + 1].clone();
                let ghost before = checks@;
                proof {
                    assert(t[1] == s[i as int + 1]);
                    assert(t.skip(2) =~= s.skip(i as int + 2));
                }
                checks.push((fc, flag));
                proof {
                    assert(checks_view(checks@) =~= checks_view(before) + seq![(fc.expr(), flag@)]);
                    match checks_spec(s.skip(i as int + 2)) {
                        Ok(x) => {
                            assert(checks_view(before) + (seq![(fc.expr(), flag@)] + x) =~= checks_view(checks@) + x);
                        },
                        Err(_) => {},
                    }
                }
                i = i + 2;
            },
        }
    }
    proof {
        assert(s.skip(i as int).len() == 0);
        assert(checks_view(checks@) + Seq::<(Expr, Seq<char>)>::empty() =~= checks_view(checks@));
    }
    Ok(checks)
}

// ----------------------------------------------------------------------
// Entrants and rounds
// ----------------------------------------------------------------------

/// `t` is entrant `e` built: a team by its index in the teams, or a place or
/// flag checks of an earlier round, that round given by its position `p` in
/// the order `order` of the rounds.
pub open spec fn entrant_built(
    t: EntrantType,
    e: EntrantPars,
    tids: Seq<Seq<char>>,
    rids: Seq<Seq<char>>,
    order: Seq<nat>,
) -> bool {
    match e.id {
        Some(id) => t == EntrantType::Team(index_of(tids, id@) as usize),
        None => e.prev is Some && {
            let src = index_of(rids, e.prev->Some_0@);
            match t {
                EntrantType::Prev(p, pos) => e.pos == Some(pos) && p < order.len() && order[p as int] == src,
                EntrantType::PrevFlag(p, checks) => {
                    &&& e.pos is None
                    &&& p < order.len()
                    &&& order[p as int] == src
                    &&& e.if_flag is Some
                    &&& checks_spec(strings_view(e.if_flag->Some_0@)) == Ok::<Seq<(Expr, Seq<char>)>, (ConfigErrorKind, Seq<char>)>(
                        checks_view(checks@),
                    )
                },
                EntrantType::Team(_) => false,
            }
        },
    }
}

/// What stops an entrant from being built: its flag checks.
pub open spec fn entrant_conv_problem(e: EntrantPars) -> Option<(ConfigErrorKind, Seq<char>)> {
    if e.id is None && e.prev is Some && e.pos is None && e.if_flag is Some {
        match checks_spec(strings_view(e.if_flag->Some_0@)) {
            Ok(_) => None,
            Err(p) => Some(p),
        }
    } else {
        None
    }
}

/// The first value that is there.
pub open spec fn first_some<A>(s: Seq<Option<A>>) -> Option<A>
    decreases s.len(),
{
    if s.len() == 0 {
        None
    } else {
        match first_some(s.drop_last()) {
            Some(p) => Some(p),
            None => s.last(),
        }
    }
}

/// The first problem that stops the entrants of a round from being built.
pub open spec fn round_conv_problem(r: RoundPars) -> Option<(ConfigErrorKind, Seq<char>)> {
    first_some(r.entrant@.map_values(|e: EntrantPars| entrant_conv_problem(e)))
}

/// Flag checks never report a cycle.
proof fn lemma_checks_kind(s: Seq<Seq<char>>)
    ensures
        checks_spec(s) matches Err(p) ==> p.0 != ConfigErrorKind::Cycle,
    decreases s.len(),
{
    if s.len() >= 2 {
        lemma_checks_kind(s.skip(2));
    }
}

/// Building the entrants of a round never reports a cycle.
proof fn lemma_conv_kind(s: Seq<Option<(ConfigErrorKind, Seq<char>)>>)
    requires
        forall|i: int| 0 <= i < s.len() ==> ((#[trigger] s[i]) matches Some(p) ==> p.0 != ConfigErrorKind::Cycle),
    ensures
        first_some(s) matches Some(p) ==> p.0 != ConfigErrorKind::Cycle,
    decreases s.len(),
{
    if s.len() > 0 {
        let d = s.drop_last();
        assert forall|i: int| 0 <= i < d.len() implies ((#[trigger] d[i]) matches Some(p) ==> p.0 != ConfigErrorKind::Cycle) by {
            assert(d[i] == s[i]);
        }
        lemma_conv_kind(d);
        assert(s.last() == s[s.len() - 1]);
    }
}

proof fn lemma_round_conv_kind(r: RoundPars)
    ensures
        round_conv_problem(r) matches Some(p) ==> p.0 != ConfigErrorKind::Cycle,
{
    let s = r.entrant@.map_values(|e: EntrantPars| entrant_conv_problem(e));
    assert forall|i: int| 0 <= i < s.len() implies ((#[trigger] s[i]) matches Some(p) ==> p.0 != ConfigErrorKind::Cycle) by {
        let e = r.entrant@[i];
        if e.if_flag is Some {
            lemma_checks_kind(strings_view(e.if_flag->Some_0@));
        }
    }
    lemma_conv_kind(s);
}

/// `r` is round `rp` built.
pub open spec fn round_built(
    r: Round,
    rp: RoundPars,
    tids: Seq<Seq<char>>,
    fids: Seq<Seq<char>>,
    rids: Seq<Seq<char>>,
    order: Seq<nat>,
) -> bool {
    &&& r.id@ == rp.id@
    &&& r.name@ == rp.name@
    &&& r.format == index_of(fids, rp.format@)
    &&& r.entrant@.len() == rp.entrant@.len()
    &&& forall|m: int| 0 <= m < r.entrant@.len() ==> {
        &&& entrant_built(#[trigger] r.entrant@[m].t, rp.entrant@[m], tids, rids, order)
        &&& r.entrant@[m].set_flag == rp.entrant@[m].set_flag
    }
}

proof fn lemma_first_some_prefix<A>(s: Seq<Option<A>>, k: int)
    requires
        0 <= k <= s.len(),
        first_some(s.take(k)) is Some,
    ensures
        first_some(s) == first_some(s.take(k)),
    decreases s.len() - k,
{
    if k < s.len() {
        assert(s.take(k + 1).drop_last() =~= s.take(k));
        lemma_first_some_prefix(s, k + 1);
    } else {
        assert(s.take(k) =~= s);
    }
}

proof fn lemma_entrants_ok(es: Seq<EntrantPars>, r: RoundPars, t: Seq<Seq<char>>, rv: Seq<Seq<char>>, m: int)
    requires
        entrants_problem(es, r, t, rv) is None,
        0 <= m < es.len(),
    ensures
        entrant_problem(es[m], r, t, rv) is None,
    decreases es.len(),
{
    if m < es.len() - 1 {
        assert(es.drop_last()[m] == es[m]);
        lemma_entrants_ok(es.drop_last(), r, t, rv, m);
    }
}

proof fn lemma_rounds_ok(rs: Seq<RoundPars>, f: Seq<Seq<char>>, t: Seq<Seq<char>>, rv: Seq<Seq<char>>, i: int)
    requires
        rounds_problem(rs, f, t, rv) is None,
        0 <= i < rs.len(),
    ensures
        round_problem(rs[i], f, t, rv) is None,
    decreases rs.len(),
{
    if i < rs.len() - 1 {
        assert(rs.drop_last()[i] == rs[i]);
        lemma_rounds_ok(rs.drop_last(), f, t, rv, i);
    }
}

/// A present identifier has its first index within the list.
proof fn lemma_index_in(s: Seq<Seq<char>>, x: Seq<char>)
    requires
        has_flag(s, x),
    ensures
        index_of(s, x) < s.len(),
        s[index_of(s, x) as int] == x,
    decreases s.len(),
{
    if s[0] != x {
        let i = choose|i: int| 0 <= i < s.len() && s[i] == x;
        assert(s.drop_first()[i - 1] == x);
        lemma_index_in(s.drop_first(), x);
    }
}

/// Positions in the order of the rounds: `order[pos[i]] == i`.
pub open spec fn positions_of(pos: Seq<usize>, order: Seq<nat>) -> bool {
    &&& pos.len() == order.len()
    &&& forall|i: int| 0 <= i < pos.len() ==> (#[trigger] pos[i]) < order.len() && order[pos[i] as int] == i
}

/// Builds an entrant that has no problem.
fn convert_entrant(
    e: &EntrantPars,
    r: &RoundPars,
    tids: &Vec<String>,
    rids: &Vec<String>,
    pos: &Vec<usize>,
    Ghost(order): Ghost<Seq<nat>>,
) -> (res: Result<EntrantType, ConfigError>)
    requires
        entrant_problem(*e, *r, strings_view(tids@), strings_view(rids@)) is None,
        positions_of(pos@, order),
        pos@.len() == rids@.len(),
    ensures
        match entrant_conv_problem(*e) {
            Some(p) => res matches Err(x) && problem_view(x) == p,
            None => res matches Ok(t) && entrant_built(t, *e, strings_view(tids@), strings_view(rids@), order),
        },
        res matches Ok(t) ==> (t matches EntrantType::Team(i) ==> i < tids@.len()),
{
    match &e.id {
        Some(id) => {
            let i = find_string(tids, id);
            Ok(EntrantType::Team(i))
        },
        None => {
            let prev = e.prev.as_ref().unwrap();
            let j = find_string(rids, prev);
            proof {
                lemma_index_in(strings_view(rids@), prev@);
            }
            let p = pos[j];
            match e.pos {
                Some(place) => Ok(EntrantType::Prev(p, place)),
                None => {
                    let if_flag = e.if_flag.as_ref().unwrap();
                    match build_checks(if_flag) {
                        Ok(checks) => Ok(EntrantType::PrevFlag(p, checks)),
                        Err(x) => Err(x),
                    }
                },
            }
        },
    }
}

/// Builds a round whose references all exist. A flag check that does not
/// parse, or an `if_flag` list of odd length, comes back as an error value
/// rather than stopping the process.
fn convert_round(
    r: &RoundPars,
    tids: &Vec<String>,
    fids: &Vec<String>,
    rids: &Vec<String>,
    pos: &Vec<usize>,
    Ghost(order): Ghost<Seq<nat>>,
) -> (res: Result<Round, ConfigError>)
    requires
        round_problem(*r, strings_view(fids@), strings_view(tids@), strings_view(rids@)) is None,
        positions_of(pos@, order),
        pos@.len() == rids@.len(),
    ensures
        match round_conv_problem(*r) {
            Some(p) => res matches Err(x) && problem_view(x) == p,
            None => res matches Ok(rd) && round_built(rd, *r, strings_view(tids@), strings_view(fids@), strings_view(rids@), order)
                && rd.format < fids@.len()
                && forall|m: int| 0 <= m < rd.entrant@.len() ==> ((#[trigger] rd.entrant@[m]).t matches EntrantType::Team(i) ==> i < tids@.len()),
        },
{
    let ghost t = strings_view(tids@);
    let ghost f = strings_view(fids@);
    let ghost rv = strings_view(rids@);
    let ghost probs = r.entrant@.map_values(|e: EntrantPars| entrant_conv_problem(e));
    let mut entrant: Vec<Entrant> = Vec::new();
    let mut m: usize = 0;
    while m < r.entrant.len()
        invariant
            m <= r.entrant@.len(),
            t == strings_view(tids@),
            f == strings_view(fids@),
            rv == strings_view(rids@),
            probs == r.entrant@.map_values(|e: EntrantPars| entrant_conv_problem(e)),
            round_problem(*r, f, t, rv) is None,
            positions_of(pos@, order),
            pos@.len() == rids@.len(),
            first_some(probs.take(m as int)) is None,
            entrant@.len() == m,
            forall|k: int| 0 <= k < m ==> {
                &&& entrant_built(#[trigger] entrant@[k].t, r.entrant@[k], t, rv, order)
                &&& entrant@[k].set_flag == r.entrant@[k].set_flag
                &&& (entrant@[k].t matches EntrantType::Team(i) ==> i < tids@.len())
            },
        decreases r.entrant@.len() - m,
    {
        proof {
            lemma_entrants_ok(r.entrant@, *r, t, rv, m as int);
            assert(probs.take(m as int + 1).drop_last() =~= probs.take(m as int));
            assert(probs.take(m as int + 1).last() == entrant_conv_problem(r.entrant@[m as int]));
        }
        let e = &r.entrant[m];
        match convert_entrant(e, r, tids, rids, pos, Ghost(order)) {
            Err(x) => {
                proof {
                    lemma_first_some_prefix(probs, m as int + 1);
                }
                return Err(x);
            },
            Ok(et) => {
                entrant.push(Entrant { t: et, set_flag: copy_set_flag(&e.set_flag) });
            },
        }
        m = m + 1;
    }
    proof {
        assert(probs.take(r.entrant@.len() as int) =~= probs);
        lemma_index_in(f, r.format@);
    }
    let format = find_string(fids, &r.format);
    Ok(Round { id: r.id.clone(), name: r.name.clone(), format, entrant })
}

// ----------------------------------------------------------------------
// The whole configuration
// ----------------------------------------------------------------------

/// The first problem that stops a configuration from being built: a problem
/// that its check finds, then a flag check of a round (rounds taken in the
/// order the check gives), then a final round that does not exist.
pub open spec fn build_problem(c: ConfigPars) -> Option<(ConfigErrorKind, Seq<char>)> {
    match verify_spec(c) {
        Err(p) => Some(p),
        Ok(order) => match first_some(order.map_values(|i: nat| round_conv_problem(c.round@[i as int]))) {
            Some(p) => Some(p),
            None => if has_flag(round_ids(c.round@), c.root@) {
                None
            } else {
                Some((ConfigErrorKind::RootNotFound, c.root@))
            },
        },
    }
}

/// `cfg` is the configuration `c` built: its teams and formats, its rounds
/// in the order the check gives, and its final round.
pub open spec fn config_built(cfg: Config, c: ConfigPars) -> bool {
    let order = verify_spec(c)->Ok_0;
    let tids = team_ids(c.team@);
    let fids = format_ids(c.format@);
    let rids = round_ids(c.round@);
    &&& cfg.name == c.name
    &&& cfg.seed == c.seed
    &&& cfg.team == c.team
    &&& cfg.format == c.format
    &&& cfg.round@.len() == order.len()
    &&& forall|k: int| 0 <= k < cfg.round@.len() ==> round_built(#[trigger] cfg.round@[k], c.round@[order[k] as int], tids, fids, rids, order)
    &&& cfg.root < order.len()
    &&& order[cfg.root as int] == index_of(rids, c.root@)
}

proof fn lemma_entrant_edge(es: Seq<EntrantPars>, i: nat, rids: Seq<Seq<char>>, m: int)
    requires
        0 <= m < es.len(),
        es[m].prev is Some,
    ensures
        exists|e: int| 0 <= e < crate::config::entrant_edges(es, i, rids).len()
            && crate::config::entrant_edges(es, i, rids)[e] == (i, index_of(rids, es[m].prev->Some_0@)),
    decreases es.len(),
{
    let a = crate::config::entrant_edges(es.drop_last(), i, rids);
    let x = (i, index_of(rids, es[m].prev->Some_0@));
    if m == es.len() - 1 {
        assert(crate::config::entrant_edges(es, i, rids)[a.len() as int] == x);
    } else {
        assert(es.drop_last()[m] == es[m]);
        lemma_entrant_edge(es.drop_last(), i, rids, m);
        let e = choose|e: int| 0 <= e < a.len() && a[e] == x;
        assert(crate::config::entrant_edges(es, i, rids)[e] == a[e]);
    }
}

proof fn lemma_dep_edge(rs: Seq<RoundPars>, k: nat, r: int, m: int)
    requires
        0 <= r < k <= rs.len(),
        0 <= m < rs[r].entrant@.len(),
        rs[r].entrant@[m].prev is Some,
    ensures
        exists|e: int| 0 <= e < dep_edges(rs, k).len()
            && dep_edges(rs, k)[e] == (r as nat, index_of(round_ids(rs), rs[r].entrant@[m].prev->Some_0@)),
    decreases k,
{
    let a = dep_edges(rs, (k - 1) as nat);
    let b = crate::config::entrant_edges(rs[k - 1].entrant@, (k - 1) as nat, round_ids(rs));
    let x = (r as nat, index_of(round_ids(rs), rs[r].entrant@[m].prev->Some_0@));
    if r == k - 1 {
        lemma_entrant_edge(rs[r].entrant@, r as nat, round_ids(rs), m);
        let e = choose|e: int| 0 <= e < b.len() && b[e] == x;
        assert(dep_edges(rs, k)[a.len() + e] == b[e]);
    } else {
        lemma_dep_edge(rs, (k - 1) as nat, r, m);
        let e = choose|e: int| 0 <= e < a.len() && a[e] == x;
        assert(dep_edges(rs, k)[e] == a[e]);
    }
}

/// A built entrant that comes from an earlier round names a round that
/// comes earlier in the order.
proof fn lemma_source_earlier(rs: Seq<RoundPars>, order: Seq<nat>, k: int, m: int, t: EntrantType, tids: Seq<Seq<char>>)
    requires
        is_dependency_order(order, rs.len(), dep_edges(rs, rs.len())),
        0 <= k < order.len(),
        0 <= m < rs[order[k] as int].entrant@.len(),
        entrant_built(t, rs[order[k] as int].entrant@[m], tids, round_ids(rs), order),
    ensures
        entrant_source(t) matches Some(p) ==> p < k,
{
    let r = order[k] as int;
    let e = rs[r].entrant@[m];
    if e.id is None {
        let src = index_of(round_ids(rs), e.prev->Some_0@);
        lemma_dep_edge(rs, rs.len(), r, m);
        let edges = dep_edges(rs, rs.len());
        let ei = choose|ei: int| 0 <= ei < edges.len() && edges[ei] == (r as nat, src);
        match t {
            EntrantType::Prev(p, _) => {
                assert(order[p as int] == edges[ei].1 && order[k] == edges[ei].0);
            },
            EntrantType::PrevFlag(p, _) => {
                assert(order[p as int] == edges[ei].1 && order[k] == edges[ei].0);
            },
            EntrantType::Team(_) => {},
        }
    }
}

/// `n` distinct values below `n` take every value below `n`.
pub(crate) proof fn lemma_onto(order: Seq<nat>, n: nat, v: nat)
    requires
        order.len() == n,
        order.no_duplicates(),
        forall|i: int| 0 <= i < order.len() ==> #[trigger] order[i] < n,
        v < n,
    ensures
        exists|k: int| 0 <= k < n && order[k] == v,
{
    if !(exists|k: int| 0 <= k < n && order[k] == v) {
        let f = |i: int| if order[i] > v { order[i] - 1 } else { order[i] as int };
        assert forall|i: int| 0 <= i < n implies 0 <= #[trigger] f(i) < n - 1 by {
            assert(order[i] != v);
            assert(order[i] < n);
        }
        crate::gen_pairing::lemma_pigeonhole(f, n);
        let (i, j) = choose|i: int, j: int| 0 <= i < j < n && #[trigger] f(i) == #[trigger] f(j);
        assert(order[i] != v && order[j] != v);
        assert(order[i] == order[j]);
    }
}

/// An absent identifier has the length of the list as its index.
proof fn lemma_index_absent(s: Seq<Seq<char>>, x: Seq<char>)
    requires
        !has_flag(s, x),
    ensures
        index_of(s, x) == s.len(),
    decreases s.len(),
{
    if s.len() > 0 {
        assert(s[0] != x);
        assert forall|i: int| 0 <= i < s.drop_first().len() implies s.drop_first()[i] != x by {
            assert(s.drop_first()[i] == s[i + 1]);
        }
        lemma_index_absent(s.drop_first(), x);
    }
}

/// The position of each round in `order`.
fn order_positions(order: &Vec<usize>, Ghost(ov): Ghost<Seq<nat>>) -> (pos: Vec<usize>)
    requires
        ov == order@.map_values(|x: usize| x as nat),
        ov.no_duplicates(),
        forall|i: int| 0 <= i < ov.len() ==> #[trigger] ov[i] < ov.len(),
    ensures
        positions_of(pos@, ov),
{
    let n = order.len();
    let mut pos: Vec<usize> = Vec::new();
    while pos.len() < n
        invariant
            pos@.len() <= n,
            n == order@.len(),
        decreases n - pos@.len(),
    {
        pos.push(0);
    }
    let mut k: usize = 0;
    while k < n
        invariant
            k <= n,
            n == order@.len(),
            pos@.len() == n,
            ov == order@.map_values(|x: usize| x as nat),
            ov.no_duplicates(),
            forall|i: int| 0 <= i < ov.len() ==> #[trigger] ov[i] < ov.len(),
            forall|j: int| 0 <= j < k ==> #[trigger] pos@[order@[j] as int] == j,
        decreases n - k,
    {
        assert(ov[k as int] == order@[k as int]);
        let ghost before = pos@;
        pos.set(order[k], k);
        proof {
            assert forall|j: int| 0 <= j < k + 1 implies #[trigger] pos@[order@[j] as int] == j by {
                if j < k {
                    assert(ov[j] == order@[j]);
                    assert(order@[j] != order@[k as int]) by {
                        assert(ov[j] != ov[k as int]);
                    }
                    assert(pos@[order@[j] as int] == before[order@[j] as int]);
                }
            }
        }
        k = k + 1;
    }
    proof {
        assert forall|i: int| 0 <= i < pos@.len() implies (#[trigger] pos@[i]) < ov.len() && ov[pos@[i] as int] == i by {
            lemma_onto(ov, n as nat, i as nat);
            let k = choose|k: int| 0 <= k < n && ov[k] == i;
            assert(ov[k] == order@[k]);
            assert(pos@[order@[k] as int] == k);
        }
    }
    pos
}

/// Builds a configuration from a parsed configuration file: checks it (see
/// [`verify`]), orders its rounds so that each comes after the rounds it
/// takes entrants from, turns identifiers into indices and parses the flag
/// checks. Gives the first problem it meets as an error value (a faulty
/// file does not stop the process; the program that reads it reports the
/// problem and exits).
pub fn build_config(pars: ConfigPars) -> (res: Result<Config, ConfigError>)
    requires
        pars.round@.len() + 1 < u32::MAX,
        prev_count(pars.round@) + 1 < u32::MAX,
    ensures
        match build_problem(pars) {
            Some(p) => res matches Err(e) && problem_view(e) == p,
            None => res matches Ok(cfg) && config_wf(&cfg) && config_built(cfg, pars),
        },
        res matches Err(e) && e.kind == ConfigErrorKind::Cycle ==> !has_dependency_order(
            pars.round@.len(),
            dep_edges(pars.round@, pars.round@.len()),
        ),
{
    let order = match verify(&pars) {
        Ok(o) => o,
        Err(e) => return Err(e),
    };
    let ghost ov = order@.map_values(|x: usize| x as nat);
    let ghost rs = pars.round@;
    let ghost n = rs.len();
    let tids = crate::config::collect_team_ids(&pars.team);
    let fids = crate::config::collect_format_ids(&pars.format);
    let rids = crate::config::collect_round_ids(&pars.round);
    let ghost t = strings_view(tids@);
    let ghost f = strings_view(fids@);
    let ghost rv = strings_view(rids@);
    proof {
        assert(check_problem(pars) is None);
        assert(check_problem(pars) == rounds_problem(rs, f, t, rv));
    }
    let pos = order_positions(&order, Ghost(ov));
    let ghost probs = ov.map_values(|i: nat| round_conv_problem(rs[i as int]));
    let mut rounds: Vec<Round> = Vec::new();
    let mut k: usize = 0;
    while k < order.len()
        invariant
            k <= ov.len(),
            ov == order@.map_values(|x: usize| x as nat),
            verify_spec(pars) == Ok::<Seq<nat>, (ConfigErrorKind, Seq<char>)>(ov),
            is_dependency_order(ov, n, dep_edges(rs, n)),
            rs == pars.round@,
            n == rs.len(),
            t == strings_view(tids@),
            f == strings_view(fids@),
            rv == strings_view(rids@),
            t == team_ids(pars.team@),
            f == format_ids(pars.format@),
            rv == round_ids(rs),
            rounds_problem(rs, f, t, rv) is None,
            positions_of(pos@, ov),
            pos@.len() == rids@.len(),
            probs == ov.map_values(|i: nat| round_conv_problem(rs[i as int])),
            first_some(probs.take(k as int)) is None,
            rounds@.len() == k,
            forall|j: int| 0 <= j < k ==> {
                &&& round_built(#[trigger] rounds@[j], rs[ov[j] as int], t, f, rv, ov)
                &&& rounds@[j].format < f.len()
                &&& forall|m: int| 0 <= m < rounds@[j].entrant@.len() ==> {
                    let et = (#[trigger] rounds@[j].entrant@[m]).t;
                    &&& (et matches EntrantType::Team(i) ==> i < t.len())
                    &&& (entrant_source(et) matches Some(p) ==> p < j)
                }
            },
        decreases ov.len() - k,
    {
        let i = order[k];
        proof {
            assert(ov[k as int] == i);
            lemma_rounds_ok(rs, f, t, rv, i as int);
            assert(probs.take(k as int + 1).drop_last() =~= probs.take(k as int));
            assert(probs.take(k as int + 1).last() == round_conv_problem(rs[i as int]));
        }
        match convert_round(&pars.round[i], &tids, &fids, &rids, &pos, Ghost(ov)) {
            Err(x) => {
                proof {
                    lemma_first_some_prefix(probs, k as int + 1);
                    lemma_round_conv_kind(rs[i as int]);
                }
                return Err(x);
            },
            Ok(rd) => {
                proof {
                    assert forall|m: int| 0 <= m < rd.entrant@.len() implies
                        (entrant_source((#[trigger] rd.entrant@[m]).t) matches Some(p) ==> p < k) by {
                        lemma_source_earlier(rs, ov, k as int, m, rd.entrant@[m].t, t);
                    }
                }
                rounds.push(rd);
            },
        }
        k = k + 1;
    }
    proof {
        assert(probs.take(ov.len() as int) =~= probs);
    }
    let j = find_string(&rids, &pars.root);
    if j >= rids.len() {
        proof {
            if has_flag(rv, pars.root@) {
                lemma_index_in(rv, pars.root@);
            }
        }
        return Err(ConfigError { kind: ConfigErrorKind::RootNotFound, subject: pars.root });
    }
    proof {
        if !has_flag(rv, pars.root@) {
            lemma_index_absent(rv, pars.root@);
        }
    }
    let root = pos[j];
    let cfg = Config { name: pars.name, seed: pars.seed, root, team: pars.team, format: pars.format, round: rounds };
    proof {
        assert forall|r: int| 0 <= r < cfg.round@.len() implies #[trigger] cfg.round@[r].format < cfg.format@.len() by {
            assert(cfg.round@[r] == rounds@[r]);
        }
        assert forall|r: int, e: int| 0 <= r < cfg.round@.len() && 0 <= e < cfg.round@[r].entrant@.len() implies {
            let et = #[trigger] cfg.round@[r].entrant@[e].t;
            &&& (et matches EntrantType::Team(i) ==> i < cfg.team@.len())
            &&& (entrant_source(et) matches Some(p) ==> p < r)
        } by {
            assert(cfg.round@[r] == rounds@[r]);
            assert(rounds@[r].entrant@[e] == cfg.round@[r].entrant@[e]);
        }
    }
    Ok(cfg)
}

} // verus!
