//! Counts over many runs of a tournament: per round, how often each team
//! won it and how often it took part.
use vstd::prelude::*;
use crate::config::Team;
use crate::flagcheck::{strings_view, has_flag, contains_string};
use crate::result::RoundResult;

verus! {

broadcast use vstd::seq_lib::group_to_multiset_ensures;

/// The count of `name` in a list of counts (the last entry with that name;
/// zero without one).
pub open spec fn count_of(v: Seq<(String, u32)>, name: Seq<char>) -> nat
    decreases v.len(),
{
    if v.len() == 0 {
        0
    } else if v.last().0@ == name {
        v.last().1 as nat
    } else {
        count_of(v.drop_last(), name)
    }
}

/// No name occurs twice in a list of counts.
pub open spec fn names_unique(v: Seq<(String, u32)>) -> bool {
    forall|a: int, b: int| 0 <= a < b < v.len() ==> (#[trigger] v[a]).0@ != (#[trigger] v[b]).0@
}

/// How often `x` occurs among `names`.
pub open spec fn occurrences(names: Seq<Seq<char>>, x: Seq<char>) -> nat
    decreases names.len(),
{
    if names.len() == 0 {
        0
    } else {
        occurrences(names.drop_last(), x) + if names.last() == x { 1nat } else { 0nat }
    }
}

/// The counts of one round: how often each team won it and how often each
/// took part.
pub struct RoundTally {
    /// The round's id, by which runs are counted.
    pub id: String,
    /// The round's name, as first recorded.
    pub name: String,
    pub winner: Vec<(String, u32)>,
    pub participant: Vec<(String, u32)>,
}

/// The counts of all rounds, by round id.
pub struct Tally {
    pub rounds: Vec<RoundTally>,
}

/// The counts of the round with id `r` (the last with that id), if any.
pub open spec fn tally_round(t: Seq<RoundTally>, r: Seq<char>) -> Option<RoundTally>
    decreases t.len(),
{
    if t.len() == 0 {
        None
    } else if t.last().id@ == r {
        Some(t.last())
    } else {
        tally_round(t.drop_last(), r)
    }
}

/// How often team `x` won round `r`.
pub open spec fn wins(t: Seq<RoundTally>, r: Seq<char>, x: Seq<char>) -> nat {
    match tally_round(t, r) {
        Some(rt) => count_of(rt.winner@, x),
        None => 0,
    }
}

/// How often team `x` took part in round `r`.
pub open spec fn appearances(t: Seq<RoundTally>, r: Seq<char>, x: Seq<char>) -> nat {
    match tally_round(t, r) {
        Some(rt) => count_of(rt.participant@, x),
        None => 0,
    }
}

impl Tally {
    /// Round ids are unique, and so are the team names of each round's counts.
    pub open spec fn wf(&self) -> bool {
        &&& forall|a: int, b: int| 0 <= a < b < self.rounds@.len() ==> (#[trigger] self.rounds@[a]).id@
            != (#[trigger] self.rounds@[b]).id@
        &&& forall|a: int| 0 <= a < self.rounds@.len() ==> names_unique((#[trigger] self.rounds@[a]).winner@)
            && names_unique(self.rounds@[a].participant@)
    }

    /// No counts yet.
    pub fn new() -> (t: Tally)
        ensures
            t.wf(),
            t.rounds@.len() == 0,
    {
        Tally { rounds: Vec::new() }
    }
}

proof fn lemma_count_bound(v: Seq<(String, u32)>, name: Seq<char>)
    ensures
        count_of(v, name) <= u32::MAX,
    decreases v.len(),
{
    if v.len() > 0 && v.last().0@ != name {
        lemma_count_bound(v.drop_last(), name);
    }
}

proof fn lemma_count_unique(v: Seq<(String, u32)>, name: Seq<char>, i: int)
    requires
        names_unique(v),
        0 <= i < v.len(),
        v[i].0@ == name,
    ensures
        count_of(v, name) == v[i].1,
    decreases v.len(),
{
    if i < v.len() - 1 {
        assert(v.drop_last()[i] == v[i]);
        assert forall|a: int, b: int| 0 <= a < b < v.drop_last().len() implies
            (#[trigger] v.drop_last()[a]).0@ != (#[trigger] v.drop_last()[b]).0@ by {
            assert(v.drop_last()[a] == v[a] && v.drop_last()[b] == v[b]);
        }
        lemma_count_unique(v.drop_last(), name, i);
    }
}

proof fn lemma_count_absent(v: Seq<(String, u32)>, name: Seq<char>)
    requires
        forall|i: int| 0 <= i < v.len() ==> (#[trigger] v[i]).0@ != name,
    ensures
        count_of(v, name) == 0,
    decreases v.len(),
{
    if v.len() > 0 {
        assert forall|i: int| 0 <= i < v.drop_last().len() implies (#[trigger] v.drop_last()[i]).0@ != name by {
            assert(v.drop_last()[i] == v[i]);
        }
        lemma_count_absent(v.drop_last(), name);
    }
}

proof fn lemma_count_other(v: Seq<(String, u32)>, i: int, e: (String, u32), g: Seq<char>)
    requires
        0 <= i < v.len(),
        v[i].0@ == e.0@,
        g != e.0@,
    ensures
        count_of(v.update(i, e), g) == count_of(v, g),
    decreases v.len(),
{
    let w = v.update(i, e);
    if i < v.len() - 1 {
        assert(w.drop_last() =~= v.drop_last().update(i, e));
        lemma_count_other(v.drop_last(), i, e, g);
    } else {
        assert(w.drop_last() =~= v.drop_last());
    }
}

/// The count of `name`.
fn get_count(v: &Vec<(String, u32)>, name: &String) -> (res: u32)
    requires
        names_unique(v@),
    ensures
        res == count_of(v@, name@),
{
    let mut i: usize = 0;
    while i < v.len()
        invariant
            i <= v@.len(),
            names_unique(v@),
            forall|j: int| 0 <= j < i ==> (#[trigger] v@[j]).0@ != name@,
        decreases v@.len() - i,
    {
        if v[i].0 == *name {
            proof {
                lemma_count_unique(v@, name@, i as int);
            }
            return v[i].1;
        }
        i = i + 1;
    }
    proof {
        lemma_count_absent(v@, name@);
    }
    0
}

/// Adds one to the count of `name`.
fn add_one(v: &mut Vec<(String, u32)>, name: &String)
    requires
        names_unique(old(v)@),
        count_of(old(v)@, name@) < u32::MAX,
    ensures
        names_unique(final(v)@),
        forall|g: Seq<char>| #[trigger] count_of(final(v)@, g) == count_of(old(v)@, g) + if g == name@ { 1nat } else { 0nat },
{
    let ghost v0 = v@;
    let mut i: usize = 0;
    while i < v.len()
        invariant
            v@ == v0,
            old(v)@ == v0,
            names_unique(v0),
            count_of(v0, name@) < u32::MAX,
            i <= v0.len(),
            forall|j: int| 0 <= j < i ==> (#[trigger] v0[j]).0@ != name@,
        decreases v0.len() - i,
    {
        if v[i].0 == *name {
            proof {
                lemma_count_unique(v0, name@, i as int);
            }
            let c = v[i].1;
            let e = (name.clone(), c + 1);
            v.set(i, e);
            proof {
                let v1 = v@;
                assert(v1 == v0.update(i as int, e));
                assert forall|a: int, b: int| 0 <= a < b < v1.len() implies (#[trigger] v1[a]).0@ != (#[trigger] v1[b]).0@ by {
                    if a != i {
                        assert(v1[a] == v0[a]);
                    }
                    if b != i {
                        assert(v1[b] == v0[b]);
                    }
                }
                assert forall|g: Seq<char>| #[trigger] count_of(v1, g) == count_of(v0, g) + if g == name@ { 1nat } else { 0nat } by {
                    if g == name@ {
                        lemma_count_unique(v1, g, i as int);
                    } else {
                        lemma_count_other(v0, i as int, e, g);
                    }
                }
            }
            return;
        }
        i = i + 1;
    }
    proof {
        lemma_count_absent(v0, name@);
    }
    v.push((name.clone(), 1));
    proof {
        let v1 = v@;
        assert(v1.drop_last() =~= v0);
        assert forall|a: int, b: int| 0 <= a < b < v1.len() implies (#[trigger] v1[a]).0@ != (#[trigger] v1[b]).0@ by {
            if b == v0.len() {
                assert(v1[a] == v0[a]);
            } else {
                assert(v1[a] == v0[a] && v1[b] == v0[b]);
            }
        }
    }
}

proof fn lemma_occurrences_in(names: Seq<Seq<char>>, x: Seq<char>)
    requires
        occurrences(names, x) > 0,
    ensures
        exists|i: int| 0 <= i < names.len() && names[i] == x,
    decreases names.len(),
{
    if names.last() != x {
        lemma_occurrences_in(names.drop_last(), x);
        let i = choose|i: int| 0 <= i < names.drop_last().len() && names.drop_last()[i] == x;
        assert(names[i] == x);
    } else {
        assert(names[names.len() - 1] == x);
    }
}

/// How often `x` occurs among `names`.
fn count_names(names: &Vec<String>, x: &String) -> (res: u64)
    ensures
        res == occurrences(strings_view(names@), x@),
        res <= names@.len(),
{
    let ghost sv = strings_view(names@);
    let mut c: u64 = 0;
    let mut i: usize = 0;
    while i < names.len()
        invariant
            i <= names@.len(),
            sv == strings_view(names@),
            c == occurrences(sv.take(i as int), x@),
            c <= i,
        decreases names@.len() - i,
    {
        proof {
            assert(sv.take(i as int + 1).drop_last() =~= sv.take(i as int));
            assert(sv.take(i as int + 1).last() == names@[i as int]@);
        }
        if names[i] == *x {
            c = c + 1;
        }
        i = i + 1;
    }
    proof {
        assert(sv.take(names@.len() as int) =~= sv);
    }
    c
}

/// Adds one to the count of each name, as often as it occurs.
fn add_names(v: &mut Vec<(String, u32)>, names: &Vec<String>)
    requires
        names_unique(old(v)@),
        forall|x: Seq<char>| #[trigger] count_of(old(v)@, x) + occurrences(strings_view(names@), x) <= u32::MAX,
    ensures
        names_unique(final(v)@),
        forall|g: Seq<char>| #[trigger] count_of(final(v)@, g) == count_of(old(v)@, g) + occurrences(strings_view(names@), g),
{
    let ghost v0 = v@;
    let ghost sv = strings_view(names@);
    let mut i: usize = 0;
    while i < names.len()
        invariant
            i <= names@.len(),
            sv == strings_view(names@),
            old(v)@ == v0,
            names_unique(v@),
            forall|x: Seq<char>| #[trigger] count_of(v0, x) + occurrences(sv, x) <= u32::MAX,
            forall|g: Seq<char>| #[trigger] count_of(v@, g) == count_of(v0, g) + occurrences(sv.take(i as int), g),
        decreases names@.len() - i,
    {
        proof {
            assert(sv.take(i as int + 1).drop_last() =~= sv.take(i as int));
            assert(sv.take(i as int + 1).last() == names@[i as int]@);
            lemma_occurrences_prefix_le(sv, names@[i as int]@, i as int + 1);
        }
        add_one(v, &names[i]);
        i = i + 1;
    }
    proof {
        assert(sv.take(names@.len() as int) =~= sv);
    }
}

proof fn lemma_occurrences_prefix_le(s: Seq<Seq<char>>, x: Seq<char>, k: int)
    requires
        0 <= k <= s.len(),
    ensures
        occurrences(s.take(k), x) <= occurrences(s, x),
    decreases s.len() - k,
{
    if k < s.len() {
        assert(s.take(k + 1).drop_last() =~= s.take(k));
        lemma_occurrences_prefix_le(s, x, k + 1);
    } else {
        assert(s.take(k) =~= s);
    }
}

/// Room in the counts of round `round` for one more run in which `winner`
/// won it and `participants` took part.
pub open spec fn fits_run(t: Seq<RoundTally>, round: Seq<char>, winner: Seq<char>, participants: Seq<Seq<char>>) -> bool {
    &&& wins(t, round, winner) < u32::MAX
    &&& forall|x: Seq<char>| #[trigger] appearances(t, round, x) + occurrences(participants, x) <= u32::MAX
}

proof fn lemma_round_unique(t: Seq<RoundTally>, r: Seq<char>, i: int)
    requires
        forall|a: int, b: int| 0 <= a < b < t.len() ==> (#[trigger] t[a]).id@ != (#[trigger] t[b]).id@,
        0 <= i < t.len(),
        t[i].id@ == r,
    ensures
        tally_round(t, r) == Some(t[i]),
    decreases t.len(),
{
    if i < t.len() - 1 {
        assert(t.drop_last()[i] == t[i]);
        assert forall|a: int, b: int| 0 <= a < b < t.drop_last().len() implies
            (#[trigger] t.drop_last()[a]).id@ != (#[trigger] t.drop_last()[b]).id@ by {
            assert(t.drop_last()[a] == t[a] && t.drop_last()[b] == t[b]);
        }
        lemma_round_unique(t.drop_last(), r, i);
    }
}

proof fn lemma_round_absent(t: Seq<RoundTally>, r: Seq<char>)
    requires
        forall|i: int| 0 <= i < t.len() ==> (#[trigger] t[i]).id@ != r,
    ensures
        tally_round(t, r) is None,
    decreases t.len(),
{
    if t.len() > 0 {
        assert forall|i: int| 0 <= i < t.drop_last().len() implies (#[trigger] t.drop_last()[i]).id@ != r by {
            assert(t.drop_last()[i] == t[i]);
        }
        lemma_round_absent(t.drop_last(), r);
    }
}

proof fn lemma_round_other(t: Seq<RoundTally>, i: int, e: RoundTally, g: Seq<char>)
    requires
        0 <= i < t.len(),
        t[i].id@ == e.id@,
        g != e.id@,
    ensures
        tally_round(t.update(i, e), g) == tally_round(t, g),
    decreases t.len(),
{
    let w = t.update(i, e);
    if i < t.len() - 1 {
        assert(w.drop_last() =~= t.drop_last().update(i, e));
        lemma_round_other(t.drop_last(), i, e, g);
    } else {
        assert(w.drop_last() =~= t.drop_last());
    }
}

impl Tally {
    /// Index of the counts of round `round`, the number of rounds if none.
    fn find_round(&self, round: &String) -> (k: usize)
        ensures
            k <= self.rounds@.len(),
            k < self.rounds@.len() ==> self.rounds@[k as int].id@ == round@,
            k == self.rounds@.len() ==> forall|j: int| 0 <= j < self.rounds@.len() ==> (#[trigger] self.rounds@[j]).id@ != round@,
    {
        let mut k: usize = 0;
        while k < self.rounds.len()
            invariant
                k <= self.rounds@.len(),
                forall|j: int| 0 <= j < k ==> (#[trigger] self.rounds@[j]).id@ != round@,
            decreases self.rounds@.len() - k,
        {
            if self.rounds[k].id == *round {
                return k;
            }
            k = k + 1;
        }
        k
    }

    /// Counts one run of the round with id `round` (and name `name`), which
    /// `winner` won and in which `participants` took part (each as often as
    /// listed), when the counts have room for it (see [`fits_run`]);
    /// otherwise changes nothing. A round's counts keep the name it was
    /// first recorded with.
    pub fn record_round(&mut self, round: &String, name: &String, winner: &String, participants: &Vec<String>) -> (ok: bool)
        requires
            old(self).wf(),
        ensures
            final(self).wf(),
            ok ==> (tally_round(final(self).rounds@, round@) matches Some(rt) && rt.name@ == match tally_round(old(self).rounds@, round@) {
                Some(o) => o.name@,
                None => name@,
            }),
            ok ==> forall|r: Seq<char>| r != round@ ==> #[trigger] tally_round(final(self).rounds@, r) == tally_round(old(self).rounds@, r),
            ok == fits_run(old(self).rounds@, round@, winner@, strings_view(participants@)),
            ok ==> forall|r: Seq<char>, x: Seq<char>| #[trigger] wins(final(self).rounds@, r, x) == wins(old(self).rounds@, r, x)
                + if r == round@ && x == winner@ { 1nat } else { 0nat },
            ok ==> forall|r: Seq<char>, x: Seq<char>| #[trigger] appearances(final(self).rounds@, r, x)
                == appearances(old(self).rounds@, r, x) + if r == round@ { occurrences(strings_view(participants@), x) } else { 0nat },
            !ok ==> final(self).rounds@ == old(self).rounds@,
    {
        let ghost t0 = self.rounds@;
        let ghost pv = strings_view(participants@);
        // find the round's counts, or start them
        let k = self.find_round(round);
        let found = k < self.rounds.len();
        proof {
            if found {
                lemma_round_unique(t0, round@, k as int);
            } else {
                lemma_round_absent(t0, round@);
            }
        }
        // check for room
        let wc = if found { get_count(&self.rounds[k].winner, winner) } else { 0 };
        if wc == u32::MAX {
            return false;
        }
        let mut i: usize = 0;
        while i < participants.len()
            invariant
                i <= participants@.len(),
                self.rounds@ == t0,
                pv == strings_view(participants@),
                self.wf(),
                found ==> k < t0.len() && tally_round(t0, round@) == Some(t0[k as int]),
                !found ==> tally_round(t0, round@) is None,
                forall|j: int| 0 <= j < i ==> #[trigger] appearances(t0, round@, pv[j]) + occurrences(pv, pv[j]) <= u32::MAX,
            decreases participants@.len() - i,
        {
            let c = if found { get_count(&self.rounds[k].participant, &participants[i]) } else { 0 };
            let n = count_names(participants, &participants[i]);
            proof {
                assert(pv[i as int] == participants@[i as int]@);
            }
            if n > u32::MAX as u64 || c as u64 + n > u32::MAX as u64 {
                proof {
                    assert(!fits_run(t0, round@, winner@, pv)) by {
                        assert(appearances(t0, round@, pv[i as int]) + occurrences(pv, pv[i as int]) > u32::MAX);
                    }
                }
                return false;
            }
            i = i + 1;
        }
        proof {
            assert forall|x: Seq<char>| #[trigger] appearances(t0, round@, x) + occurrences(pv, x) <= u32::MAX by {
                if found {
                    lemma_count_bound(t0[k as int].participant@, x);
                }
                if occurrences(pv, x) > 0 {
                    lemma_occurrences_in(pv, x);
                    let j = choose|j: int| 0 <= j < pv.len() && pv[j] == x;
                    assert(appearances(t0, round@, pv[j]) + occurrences(pv, pv[j]) <= u32::MAX);
                }
            }
        }
        // count the run
        let mut rt = if found {
            self.rounds.remove(k)
        } else {
            RoundTally { id: round.clone(), name: name.clone(), winner: Vec::new(), participant: Vec::new() }
        };
        let ghost rt0 = rt;
        proof {
            if !found {
                assert forall|x: Seq<char>| count_of(rt0.winner@, x) == 0 && count_of(rt0.participant@, x) == 0 by {}
            }
        }
        proof {
            assert forall|x: Seq<char>| #[trigger] count_of(rt0.participant@, x) == appearances(t0, round@, x) by {}
            assert(count_of(rt0.winner@, winner@) == wins(t0, round@, winner@));
        }
        add_one(&mut rt.winner, winner);
        proof {
            assert forall|x: Seq<char>| #[trigger] count_of(rt.participant@, x) + occurrences(pv, x) <= u32::MAX by {
                assert(count_of(rt.participant@, x) == appearances(t0, round@, x));
                assert(appearances(t0, round@, x) + occurrences(pv, x) <= u32::MAX);
            }
        }
        add_names(&mut rt.participant, participants);
        let ghost rt1 = rt;
        if found {
            self.rounds.insert(k, rt);
            proof {
                assert(self.rounds@ =~= t0.update(k as int, rt1));
            }
        } else {
            self.rounds.push(rt);
        }
        proof {
            let t1 = self.rounds@;
            let idx: int = if found { k as int } else { t0.len() as int };
            assert(t1[idx] == rt1);
            assert forall|a: int, b: int| 0 <= a < b < t1.len() implies (#[trigger] t1[a]).id@ != (#[trigger] t1[b]).id@ by {
                if a != idx {
                    assert(t1[a] == t0[a]);
                }
                if b != idx {
                    assert(t1[b] == t0[b]);
                }
            }
            assert forall|a: int| 0 <= a < t1.len() implies names_unique((#[trigger] t1[a]).winner@) && names_unique(t1[a].participant@) by {
                if a != idx {
                    assert(t1[a] == t0[a]);
                }
            }
            lemma_round_unique(t1, round@, idx);
            assert forall|r: Seq<char>| r != round@ implies #[trigger] tally_round(t1, r) == tally_round(t0, r) by {
                if found {
                    lemma_round_other(t0, k as int, rt1, r);
                } else {
                    assert(t1.drop_last() =~= t0);
                }
            }
            assert forall|r: Seq<char>, x: Seq<char>| #[trigger] wins(t1, r, x) == wins(t0, r, x)
                + if r == round@ && x == winner@ { 1nat } else { 0nat } by {
                if r != round@ {
                    assert(tally_round(t1, r) == tally_round(t0, r));
                }
            }
            assert forall|r: Seq<char>, x: Seq<char>| #[trigger] appearances(t1, r, x) == appearances(t0, r, x)
                + if r == round@ { occurrences(pv, x) } else { 0nat } by {
                if r != round@ {
                    assert(tally_round(t1, r) == tally_round(t0, r));
                }
            }
        }
        true
    }
}

/// What one run of a round contributes to the counts: the round's id and
/// name, the name of the team that heads its table, and the names of all
/// teams in its table.
pub struct RunRound {
    pub id: String,
    pub name: String,
    pub winner: String,
    pub participants: Vec<String>,
}

/// The names of the teams of a table.
pub open spec fn table_names(r: RoundResult, teams: Seq<Team>) -> Seq<Seq<char>> {
    r.stats@.map_values(|s: crate::result::RoundStats| teams[s.team as int].name@)
}

/// What the rounds of one run contribute to the counts, round by round.
pub fn run_summary(results: &Vec<RoundResult>, teams: &Vec<Team>) -> (res: Vec<RunRound>)
    requires
        forall|i: int| 0 <= i < results@.len() ==> (#[trigger] results@[i]).stats@.len() > 0,
        forall|i: int, s: int| 0 <= i < results@.len() && 0 <= s < results@[i].stats@.len()
            ==> (#[trigger] results@[i].stats@[s]).team < teams@.len(),
    ensures
        res@.len() == results@.len(),
        forall|i: int| 0 <= i < res@.len() ==> {
            &&& (#[trigger] res@[i]).id@ == results@[i].id@
            &&& res@[i].name@ == results@[i].name@
            &&& res@[i].winner@ == teams@[results@[i].stats@[0].team as int].name@
            &&& strings_view(res@[i].participants@) == table_names(results@[i], teams@)
        },
{
    let mut res: Vec<RunRound> = Vec::new();
    let mut i: usize = 0;
    while i < results.len()
        invariant
            i <= results@.len(),
            forall|i: int| 0 <= i < results@.len() ==> (#[trigger] results@[i]).stats@.len() > 0,
            forall|i: int, s: int| 0 <= i < results@.len() && 0 <= s < results@[i].stats@.len()
                ==> (#[trigger] results@[i].stats@[s]).team < teams@.len(),
            res@.len() == i,
            forall|k: int| 0 <= k < i ==> {
                &&& (#[trigger] res@[k]).id@ == results@[k].id@
                &&& res@[k].name@ == results@[k].name@
                &&& res@[k].winner@ == teams@[results@[k].stats@[0].team as int].name@
                &&& strings_view(res@[k].participants@) == table_names(results@[k], teams@)
            },
        decreases results@.len() - i,
    {
        let r = &results[i];
        let ghost tn = table_names(*r, teams@);
        let mut names: Vec<String> = Vec::new();
        let mut s: usize = 0;
        while s < r.stats.len()
            invariant
                s <= r.stats@.len(),
                *r == results@[i as int],
                i < results@.len(),
                forall|s: int| 0 <= s < r.stats@.len() ==> (#[trigger] r.stats@[s]).team < teams@.len(),
                tn == table_names(*r, teams@),
                strings_view(names@) =~= tn.take(s as int),
            decreases r.stats@.len() - s,
        {
            let ghost before = names@;
            names.push(teams[r.stats[s].team].name.clone());
            proof {
                assert(strings_view(names@) =~= strings_view(before).push(tn[s as int]));
                assert(tn.take(s as int + 1) =~= tn.take(s as int).push(tn[s as int]));
            }
            s = s + 1;
        }
        proof {
            assert(tn.take(r.stats@.len() as int) =~= tn);
        }
        let w = r.stats[0].team;
        res.push(RunRound { id: r.id.clone(), name: r.name.clone(), winner: teams[w].name.clone(), participants: names });
        i = i + 1;
    }
    res
}

/// Counts ordered by count, largest first.
pub fn ranked(v: &Vec<(String, u32)>) -> (res: Vec<(String, u32)>)
    ensures
        res@.to_multiset() == v@.to_multiset(),
        forall|a: int, b: int| 0 <= a < b < res@.len() ==> (#[trigger] res@[a]).1 >= (#[trigger] res@[b]).1,
{
    let mut out: Vec<(String, u32)> = Vec::new();
    let mut k: usize = 0;
    while k < v.len()
        invariant
            k <= v@.len(),
            out@.to_multiset() == v@.take(k as int).to_multiset(),
            forall|a: int, b: int| 0 <= a < b < out@.len() ==> (#[trigger] out@[a]).1 >= (#[trigger] out@[b]).1,
        decreases v@.len() - k,
    {
        let x = (v[k].0.clone(), v[k].1);
        assert(x == v@[k as int]);
        let mut j: usize = out.len();
        while j > 0 && out[j - 1].1 < x.1
            invariant
                j <= out@.len(),
                forall|a: int| j <= a < out@.len() ==> (#[trigger] out@[a]).1 < x.1,
            decreases j,
        {
            j = j - 1;
        }
        let ghost before = out@;
        out.insert(j, x);
        proof {
            vstd::seq_lib::to_multiset_insert(before, j as int, x);
            assert(v@.take(k as int + 1) =~= v@.take(k as int).push(v@[k as int]));
            assert(out@ == before.insert(j as int, x));
            assert forall|a: int, b: int| 0 <= a < b < out@.len() implies (#[trigger] out@[a]).1 >= (#[trigger] out@[b]).1 by {
                if b < j {
                    assert(out@[a] == before[a] && out@[b] == before[b]);
                } else if b == j {
                    assert(out@[a] == before[a]);
                    if j > 0 {
                        assert(before[j - 1].1 >= x.1);
                        if a < j - 1 {
                            assert(before[a].1 >= before[j - 1].1);
                        }
                    }
                } else if a == j {
                    assert(out@[b] == before[b - 1]);
                } else if a < j {
                    assert(out@[a] == before[a] && out@[b] == before[b - 1]);
                    if j < before.len() {
                        assert(before[j as int].1 < x.1);
                    }
                    assert(before[a].1 >= before[b - 1].1);
                } else {
                    assert(out@[a] == before[a - 1] && out@[b] == before[b - 1]);
                }
            }
        }
        k = k + 1;
    }
    proof {
        assert(v@.take(v@.len() as int) =~= v@);
    }
    out
}

/// Whether the counts of the round with id `id` are shown: all rounds are
/// when none were asked for, otherwise the rounds whose ids were asked for.
pub fn round_shown(match_rounds: &Vec<String>, id: &String) -> (res: bool)
    ensures
        res == (match_rounds@.len() == 0 || has_flag(strings_view(match_rounds@), id@)),
{
    match_rounds.len() == 0 || contains_string(match_rounds.as_slice(), id)
}

} // verus!
