use vstd::prelude::*;
use crate::text::{texts, ballots, contains_text};
use crate::tally::{count, tally, lemma_count_bound};

verus! {

/// The first option of `ballot` that is not in `excluded`.
pub open spec fn first_choice(ballot: Seq<Seq<char>>, excluded: Set<Seq<char>>) -> Option<Seq<char>>
    decreases ballot.len(),
{
    if ballot.len() == 0 {
        None
    } else if excluded.contains(ballot[0]) {
        first_choice(ballot.drop_first(), excluded)
    } else {
        Some(ballot[0])
    }
}

/// The vote that each voter gives in a round: their first choice not in `excluded`.
/// A voter with no such choice gives none.
pub open spec fn round_votes(voters: Seq<Seq<Seq<char>>>, excluded: Set<Seq<char>>) -> Seq<Seq<char>>
    decreases voters.len(),
{
    if voters.len() == 0 {
        Seq::empty()
    } else {
        round_votes(voters.drop_last(), excluded) + match first_choice(voters.last(), excluded) {
            Some(o) => seq![o],
            None => Seq::empty(),
        }
    }
}

/// The options with more than `majority` votes in `pool`.
pub open spec fn above(pool: Seq<Seq<char>>, majority: nat) -> Set<Seq<char>> {
    Set::new(|o: Seq<char>| pool.contains(o) && count(pool, o) > majority)
}

/// The options of `pool` with the fewest votes.
pub open spec fn fewest(pool: Seq<Seq<char>>) -> Set<Seq<char>> {
    Set::new(
        |o: Seq<char>|
            pool.contains(o) && forall|p: Seq<char>| pool.contains(p) ==> count(pool, o) <= count(pool, p),
    )
}

/// Every option that some voter ranked.
pub open spec fn ranked(voters: Seq<Seq<Seq<char>>>) -> Set<Seq<char>> {
    Set::new(|o: Seq<char>| exists|i: int| 0 <= i < voters.len() && voters[i].contains(o))
}

/// Ranked-choice rounds from the eliminated set `eliminated`, for at most `rounds` rounds.
/// A round counts each voter's first choice that is neither eliminated nor ignored.
/// Options with more than half the voters win. Otherwise the options with the
/// fewest votes are eliminated, and when every ranked option is eliminated or
/// ignored no option wins.
pub open spec fn runoff(
    voters: Seq<Seq<Seq<char>>>,
    ignored: Set<Seq<char>>,
    eliminated: Set<Seq<char>>,
    rounds: nat,
) -> Option<Set<Seq<char>>>
    decreases rounds,
{
    if rounds == 0 {
        None
    } else {
        let pool = round_votes(voters, eliminated.union(ignored));
        let winners = above(pool, (voters.len() / 2) as nat);
        if winners != Set::<Seq<char>>::empty() {
            Some(winners)
        } else {
            let next = eliminated.union(fewest(pool));
            if ranked(voters).subset_of(next.union(ignored)) {
                None
            } else {
                runoff(voters, ignored, next, (rounds - 1) as nat)
            }
        }
    }
}

/// The result of ranked-choice voting: one round more than there are ranked
/// options, starting with nothing eliminated. By `lemma_rounds_suffice`
/// further rounds would change nothing.
pub open spec fn rcv_result(voters: Seq<Seq<Seq<char>>>, ignored: Set<Seq<char>>) -> Option<Set<Seq<char>>> {
    runoff(voters, ignored, Set::empty(), ranked(voters).len() + 1)
}

/// The set of winners, if there are winners.
pub open spec fn opt_set(r: Option<Vec<&str>>) -> Option<Set<Seq<char>>> {
    match r {
        None => None,
        Some(w) => Some(texts(w@).to_set()),
    }
}

/// The winners, if any, are listed once each.
pub open spec fn no_dup_winners(r: Option<Vec<&str>>) -> bool {
    match r {
        None => true,
        Some(w) => texts(w@).no_duplicates(),
    }
}

/// Ranked-choice voting: each voter ranks options, most preferred first.
pub struct RankChoiceVoting<'a> {
    voters: Vec<Vec<&'a str>>,
    ignore: Vec<&'a str>,
}

impl<'a> RankChoiceVoting<'a> {
    /// The voters' rankings.
    pub closed spec fn voters(&self) -> Seq<Seq<Seq<char>>> {
        ballots(self.voters@)
    }

    /// The options excluded from every round.
    pub closed spec fn ignored(&self) -> Seq<Seq<char>> {
        texts(self.ignore@)
    }

    pub fn new(voters: Vec<Vec<&'a str>>) -> (r: Self)
        ensures
            r.voters() == ballots(voters@),
            r.ignored() == Seq::<Seq<char>>::empty(),
    {
        let r = Self { voters, ignore: Vec::new() };
        assert(r.ignored() =~= Seq::<Seq<char>>::empty());
        r
    }

    /// Excludes `vote` from every later calculation.
    pub fn ignore(&mut self, vote: &'a str)
        ensures
            final(self).voters() == old(self).voters(),
            final(self).ignored() == old(self).ignored().push(vote@),
    {
        self.ignore.push(vote);
        assert(texts(self.ignore@) =~= texts(old(self).ignore@).push(vote@));
    }

    fn first_choice(&self, ballot: &Vec<&'a str>, eliminated: &Vec<&'a str>) -> (r: Option<&'a str>)
        ensures
            first_choice(texts(ballot@), texts(eliminated@).to_set().union(self.ignored().to_set()))
                == match r {
                None => None,
                Some(s) => Some(s@),
            },
    {
        let ghost ex = texts(eliminated@).to_set().union(self.ignored().to_set());
        let ghost b = texts(ballot@);
        let mut k: usize = 0;
        assert(b.subrange(0, b.len() as int) =~= b);
        while k < ballot.len()
            invariant
                0 <= k <= ballot@.len(),
                b == texts(ballot@),
                ex == texts(eliminated@).to_set().union(self.ignored().to_set()),
                first_choice(b, ex) == first_choice(b.subrange(k as int, b.len() as int), ex),
            decreases ballot@.len() - k,
        {
            let ghost rest = b.subrange(k as int, b.len() as int);
            assert(rest.drop_first() =~= b.subrange(k + 1, b.len() as int));
            assert(rest[0] == ballot@[k as int]@);
            if !contains_text(eliminated, ballot[k]) && !contains_text(&self.ignore, ballot[k]) {
                return Some(ballot[k]);
            }
            k += 1;
        }
        None
    }

    fn round(&self, eliminated: &Vec<&'a str>) -> (r: Vec<&'a str>)
        ensures
            texts(r@) == round_votes(
                self.voters(),
                texts(eliminated@).to_set().union(self.ignored().to_set()),
            ),
    {
        let ghost ex = texts(eliminated@).to_set().union(self.ignored().to_set());
        let mut pool: Vec<&'a str> = Vec::new();
        let mut i: usize = 0;
        while i < self.voters.len()
            invariant
                0 <= i <= self.voters@.len(),
                ex == texts(eliminated@).to_set().union(self.ignored().to_set()),
                texts(pool@) == round_votes(ballots(self.voters@).take(i as int), ex),
            decreases self.voters@.len() - i,
        {
            let ghost before = texts(pool@);
            assert(ballots(self.voters@).take(i + 1).drop_last() =~= ballots(self.voters@).take(i as int));
            assert(ballots(self.voters@).take(i + 1).last() == texts(self.voters@[i as int]@));
            match self.first_choice(&self.voters[i], eliminated) {
                Some(c) => {
                    pool.push(c);
                    assert(texts(pool@) =~= before + seq![c@]);
                },
                None => {
                    assert(before + Seq::<Seq<char>>::empty() =~= before);
                },
            }
            i += 1;
        }
        assert(ballots(self.voters@).take(self.voters@.len() as int) =~= ballots(self.voters@));
        pool
    }

    /// Every distinct option that some voter ranked, each once.
    fn unique_votes(&self) -> (r: Vec<&'a str>)
        ensures
            texts(r@).no_duplicates(),
            texts(r@).to_set() == ranked(self.voters()),
    {
        let ghost vs = self.voters();
        let mut set: Vec<&'a str> = Vec::new();
        let mut i: usize = 0;
        while i < self.voters.len()
            invariant
                0 <= i <= self.voters@.len(),
                vs == self.voters(),
                texts(set@).no_duplicates(),
                forall|o: Seq<char>|
                    texts(set@).contains(o) <==> exists|m: int| 0 <= m < i && vs[m].contains(o),
            decreases self.voters@.len() - i,
        {
            let voter = &self.voters[i];
            assert(vs[i as int] == texts(voter@));
            let mut k: usize = 0;
            while k < voter.len()
                invariant
                    0 <= k <= voter@.len(),
                    0 <= i < self.voters@.len(),
                    vs == self.voters(),
                    vs[i as int] == texts(voter@),
                    texts(set@).no_duplicates(),
                    forall|o: Seq<char>|
                        texts(set@).contains(o) <==> (exists|m: int| 0 <= m < i && vs[m].contains(o))
                            || texts(voter@).take(k as int).contains(o),
                decreases voter@.len() - k,
            {
                let ghost before = texts(set@);
                let v = voter[k];
                assert(texts(voter@).take(k + 1) =~= texts(voter@).take(k as int).push(v@));
                if !contains_text(&set, v) {
                    set.push(v);
                    assert(texts(set@) =~= before.push(v@));
                    assert forall|o: Seq<char>| #[trigger] texts(set@).contains(o) <==> before.contains(o) || o == v@ by {
                        if texts(set@).contains(o) {
                            let x = choose|x: int| 0 <= x < texts(set@).len() && texts(set@)[x] == o;
                            if x < before.len() {
                                assert(before[x] == o);
                            }
                        }
                        if before.contains(o) {
                            let x = choose|x: int| 0 <= x < before.len() && before[x] == o;
                            assert(texts(set@)[x] == o);
                        }
                        if o == v@ {
                            assert(texts(set@)[before.len() as int] == o);
                        }
                    }
                }
                assert forall|o: Seq<char>|
                    texts(voter@).take(k + 1).contains(o) <==> texts(voter@).take(k as int).contains(o) || o == v@ by {
                    let t = texts(voter@).take(k as int);
                    if texts(voter@).take(k + 1).contains(o) {
                        let x = choose|x: int| 0 <= x < t.push(v@).len() && t.push(v@)[x] == o;
                        if x < t.len() {
                            assert(t[x] == o);
                        }
                    }
                    if t.contains(o) {
                        let x = choose|x: int| 0 <= x < t.len() && t[x] == o;
                        assert(t.push(v@)[x] == o);
                    }
                    if o == v@ {
                        assert(t.push(v@)[k as int] == o);
                    }
                }
                assert(texts(set@).contains(v@));
                assert forall|o: Seq<char>|
                    texts(set@).contains(o) <==> (exists|m: int| 0 <= m < i && vs[m].contains(o))
                        || texts(voter@).take(k + 1).contains(o) by {
                    if o != v@ {
                        assert(texts(set@).contains(o) == before.contains(o));
                    }
                }
                k += 1;
            }
            assert(texts(voter@).take(voter@.len() as int) =~= texts(voter@));
            assert forall|o: Seq<char>|
                texts(set@).contains(o) <==> exists|m: int| 0 <= m < i + 1 && vs[m].contains(o) by {
                if exists|m: int| 0 <= m < i + 1 && vs[m].contains(o) {
                    let m = choose|m: int| 0 <= m < i + 1 && vs[m].contains(o);
                    if m < i {
                        assert(exists|m: int| 0 <= m < i && vs[m].contains(o));
                    }
                }
            }
            i += 1;
        }
        assert(texts(set@).to_set() =~= ranked(vs));
        set
    }

    /// Whether every ranked option is eliminated or ignored.
    fn exhausted(&self, unique: &Vec<&'a str>, eliminated: &Vec<&'a str>) -> (r: bool)
        requires
            texts(unique@).to_set() == ranked(self.voters()),
        ensures
            r == ranked(self.voters()).subset_of(
                texts(eliminated@).to_set().union(self.ignored().to_set()),
            ),
    {
        let ghost out = texts(eliminated@).to_set().union(self.ignored().to_set());
        let mut j: usize = 0;
        while j < unique.len()
            invariant
                0 <= j <= unique@.len(),
                out == texts(eliminated@).to_set().union(self.ignored().to_set()),
                texts(unique@).to_set() == ranked(self.voters()),
                forall|k: int| 0 <= k < j ==> out.contains(unique@[k]@),
            decreases unique@.len() - j,
        {
            if !contains_text(eliminated, unique[j]) && !contains_text(&self.ignore, unique[j]) {
                assert(!out.contains(unique@[j as int]@));
                assert(texts(unique@)[j as int] == unique@[j as int]@);
                assert(texts(unique@).to_set().contains(unique@[j as int]@));
                assert(ranked(self.voters()).contains(unique@[j as int]@));
                return false;
            }
            j += 1;
        }
        assert forall|o: Seq<char>| ranked(self.voters()).contains(o) implies out.contains(o) by {
            assert(texts(unique@).to_set().contains(o));
            let k = choose|k: int| 0 <= k < texts(unique@).len() && texts(unique@)[k] == o;
            assert(unique@[k]@ == o);
        }
        true
    }

    /// The winners of ranked-choice voting over the options not ignored: in
    /// each round every voter's highest choice that is neither ignored nor
    /// eliminated counts; the options with more than half of the voters win,
    /// else those with the fewest votes are eliminated. `None` when every
    /// ranked option is eliminated or ignored with no winner.
    pub fn calculate(&self) -> (r: Option<Vec<&'a str>>)
        ensures
            opt_set(r) == rcv_result(self.voters(), self.ignored().to_set()),
            no_dup_winners(r),
    {
        let ghost vs = self.voters();
        let ghost ign = self.ignored().to_set();
        let unique = self.unique_votes();
        proof {
            texts(unique@).unique_seq_to_set();
        }
        let majority: usize = self.voters.len() / 2;
        let mut eliminate: Vec<&'a str> = Vec::new();
        let mut rounds: u128 = unique.len() as u128 + 1;
        assert(vs.len() == self.voters@.len());
        assert(texts(eliminate@).to_set() =~= Set::<Seq<char>>::empty());
        loop
            invariant
                vs == self.voters(),
                ign == self.ignored().to_set(),
                majority == vs.len() / 2,
                texts(unique@).to_set() == ranked(vs),
                runoff(vs, ign, texts(eliminate@).to_set(), rounds as nat) == rcv_result(vs, ign),
            decreases rounds,
        {
            if rounds == 0 {
                return None;
            }
            let ghost ex = texts(eliminate@).to_set();
            let pool = self.round(&eliminate);
            let ghost p = texts(pool@);
            let (names, counts) = tally(&pool);
            let winners = select_above(&names, &counts, majority);
            proof {
                assert forall|o: Seq<char>|
                    above(p, majority as nat).contains(o) <==> texts(winners@).to_set().contains(o) by {
                    lemma_names_cover(p, names@, counts@, o);
                }
            }
            if winners.len() > 0 {
                proof {
                    assert(texts(winners@).to_set() =~= above(p, majority as nat));
                    assert(texts(winners@).to_set().contains(texts(winners@)[0]));
                    assert(runoff(vs, ign, ex, rounds as nat) == Some(above(p, majority as nat)));
                }
                return Some(winners);
            }
            proof {
                assert(above(p, majority as nat) =~= Set::<Seq<char>>::empty());
            }
            let mut losers = select_fewest(&names, &counts);
            proof {
                assert forall|o: Seq<char>|
                    fewest(p).contains(o) <==> texts(losers@).to_set().contains(o) by {
                    lemma_names_cover(p, names@, counts@, o);
                    if fewest(p).contains(o) {
                        let j = choose|j: int| 0 <= j < names@.len() && names@[j]@ == o;
                        assert forall|k: int| 0 <= k < counts@.len() implies counts@[j] <= counts@[k] by {
                            lemma_names_cover(p, names@, counts@, names@[k]@);
                        }
                    }
                    if texts(losers@).to_set().contains(o) {
                        let j = choose|j: int|
                            0 <= j < names@.len() && names@[j]@ == o && forall|k: int|
                                0 <= k < counts@.len() ==> counts@[j] <= counts@[k];
                        assert forall|q: Seq<char>| p.contains(q) implies count(p, o) <= count(p, q) by {
                            lemma_names_cover(p, names@, counts@, q);
                            let m = choose|m: int| 0 <= m < names@.len() && names@[m]@ == q;
                            assert(counts@[j] <= counts@[m]);
                        }
                    }
                }
            }
            let ghost old_elim = eliminate@;
            let ghost lost = texts(losers@);
            eliminate.append(&mut losers);
            proof {
                assert(texts(eliminate@) =~= texts(old_elim) + lost);
                lemma_concat_to_set(texts(old_elim), lost);
                assert(lost.to_set() =~= fewest(p));
                assert(texts(eliminate@).to_set() =~= ex.union(fewest(p)));
            }
            if self.exhausted(&unique, &eliminate) {
                return None;
            }
            rounds = rounds - 1;
        }
    }

    /// Computes the current winners, then excludes them from later calculations.
    pub fn next(&mut self) -> (r: Option<Vec<&'a str>>)
        ensures
            opt_set(r) == rcv_result(old(self).voters(), old(self).ignored().to_set()),
            no_dup_winners(r),
            final(self).voters() == old(self).voters(),
            final(self).ignored() == match r {
                None => old(self).ignored(),
                Some(w) => old(self).ignored() + texts(w@),
            },
    {
        let result = self.calculate();
        if let Some(winners) = &result {
            let mut j: usize = 0;
            while j < winners.len()
                invariant
                    0 <= j <= winners@.len(),
                    self.voters() == old(self).voters(),
                    self.ignored() == old(self).ignored() + texts(winners@).take(j as int),
                decreases winners@.len() - j,
            {
                self.ignore(winners[j]);
                assert(texts(winners@).take(j + 1) =~= texts(winners@).take(j as int).push(winners@[j as int]@));
                assert(old(self).ignored() + texts(winners@).take(j + 1) =~= (old(self).ignored()
                    + texts(winners@).take(j as int)).push(winners@[j as int]@));
                j += 1;
            }
            assert(texts(winners@).take(winners@.len() as int) =~= texts(winners@));
        } else {
            assert(self.ignored() =~= old(self).ignored());
        }
        result
    }
}

proof fn lemma_concat_to_set(a: Seq<Seq<char>>, b: Seq<Seq<char>>)
    ensures
        (a + b).to_set() == a.to_set().union(b.to_set()),
{
    assert forall|o: Seq<char>| (a + b).contains(o) <==> a.contains(o) || b.contains(o) by {
        if (a + b).contains(o) {
            let k = choose|k: int| 0 <= k < (a + b).len() && (a + b)[k] == o;
            if k < a.len() {
                assert(a[k] == o);
            } else {
                assert(b[k - a.len()] == o);
            }
        }
        if a.contains(o) {
            let k = choose|k: int| 0 <= k < a.len() && a[k] == o;
            assert((a + b)[k] == o);
        }
        if b.contains(o) {
            let k = choose|k: int| 0 <= k < b.len() && b[k] == o;
            assert((a + b)[k + a.len()] == o);
        }
    }
    assert((a + b).to_set() =~= a.to_set().union(b.to_set()));
}

/// The options listed in `names` are those of `pool`, each with its count.
proof fn lemma_names_cover(pool: Seq<Seq<char>>, names: Seq<&str>, counts: Seq<usize>, o: Seq<char>)
    requires
        names.len() == counts.len(),
        forall|q: Seq<char>| texts(names).contains(q) <==> pool.contains(q),
        forall|j: int| 0 <= j < counts.len() ==> counts[j] == count(pool, names[j]@),
    ensures
        pool.contains(o) <==> exists|j: int| 0 <= j < names.len() && names[j]@ == o,
        forall|j: int| 0 <= j < names.len() && names[j]@ == o ==> counts[j] == count(pool, o),
{
    if pool.contains(o) {
        assert(texts(names).contains(o));
        let j = choose|j: int| 0 <= j < texts(names).len() && texts(names)[j] == o;
        assert(names[j]@ == o);
    }
    if exists|j: int| 0 <= j < names.len() && names[j]@ == o {
        let j = choose|j: int| 0 <= j < names.len() && names[j]@ == o;
        assert(texts(names)[j] == o);
    }
}

/// The names whose count is greater than `bound`, in their listed order.
fn select_above<'a>(names: &Vec<&'a str>, counts: &Vec<usize>, bound: usize) -> (r: Vec<&'a str>)
    requires
        names@.len() == counts@.len(),
        texts(names@).no_duplicates(),
    ensures
        texts(r@).no_duplicates(),
        forall|o: Seq<char>|
            texts(r@).contains(o) <==> exists|j: int|
                0 <= j < names@.len() && names@[j]@ == o && counts@[j] > bound,
{
    let mut r: Vec<&'a str> = Vec::new();
    let mut j: usize = 0;
    while j < names.len()
        invariant
            0 <= j <= names@.len(),
            names@.len() == counts@.len(),
            texts(names@).no_duplicates(),
            texts(r@).no_duplicates(),
            forall|o: Seq<char>|
                texts(r@).contains(o) <==> exists|k: int|
                    0 <= k < j && names@[k]@ == o && counts@[k] > bound,
        decreases names@.len() - j,
    {
        if counts[j] > bound {
            let ghost before = r@;
            r.push(names[j]);
            proof {
                lemma_push_distinct(names@, before, r@, j as int, |k: int| counts@[k] > bound);
            }
        }
        j += 1;
    }
    r
}

/// The names whose count is the smallest, in their listed order.
fn select_fewest<'a>(names: &Vec<&'a str>, counts: &Vec<usize>) -> (r: Vec<&'a str>)
    requires
        names@.len() == counts@.len(),
        texts(names@).no_duplicates(),
    ensures
        texts(r@).no_duplicates(),
        forall|o: Seq<char>|
            texts(r@).contains(o) <==> exists|j: int|
                0 <= j < names@.len() && names@[j]@ == o && forall|k: int|
                    0 <= k < counts@.len() ==> counts@[j] <= counts@[k],
{
    let mut least: usize = usize::MAX;
    let ghost mut at: int = 0;
    let mut j: usize = 0;
    while j < counts.len()
        invariant
            0 <= j <= counts@.len(),
            forall|k: int| 0 <= k < j ==> least <= counts@[k],
            j > 0 ==> 0 <= at < j && least == counts@[at],
        decreases counts@.len() - j,
    {
        if j == 0 || counts[j] < least {
            least = counts[j];
            proof {
                at = j as int;
            }
        }
        j += 1;
    }
    let mut r: Vec<&'a str> = Vec::new();
    let mut j: usize = 0;
    while j < names.len()
        invariant
            0 <= j <= names@.len(),
            names@.len() == counts@.len(),
            texts(names@).no_duplicates(),
            texts(r@).no_duplicates(),
            forall|k: int| 0 <= k < counts@.len() ==> least <= counts@[k],
            counts@.len() > 0 ==> exists|k: int| 0 <= k < counts@.len() && least == counts@[k],
            forall|o: Seq<char>|
                texts(r@).contains(o) <==> exists|k: int|
                    0 <= k < j && names@[k]@ == o && counts@[k] == least,
        decreases names@.len() - j,
    {
        if counts[j] == least {
            let ghost before = r@;
            r.push(names[j]);
            proof {
                lemma_push_distinct(names@, before, r@, j as int, |k: int| counts@[k] == least);
            }
        }
        j += 1;
    }
    proof {
        assert forall|o: Seq<char>|
            texts(r@).contains(o) <==> exists|j: int|
                0 <= j < names@.len() && names@[j]@ == o && forall|k: int|
                    0 <= k < counts@.len() ==> counts@[j] <= counts@[k] by {
            if exists|j: int|
                0 <= j < names@.len() && names@[j]@ == o && forall|k: int|
                    0 <= k < counts@.len() ==> counts@[j] <= counts@[k] {
                let j = choose|j: int|
                    0 <= j < names@.len() && names@[j]@ == o && forall|k: int|
                        0 <= k < counts@.len() ==> counts@[j] <= counts@[k];
                let m = choose|k: int| 0 <= k < counts@.len() && least == counts@[k];
                assert(counts@[j] <= counts@[m]);
            }
        }
    }
    r
}

/// Pushing `names[j]` onto a selection of earlier names keeps it free of
/// duplicates and adds exactly that name.
proof fn lemma_push_distinct(
    names: Seq<&str>,
    before: Seq<&str>,
    after: Seq<&str>,
    j: int,
    pick: spec_fn(int) -> bool,
)
    requires
        0 <= j < names.len(),
        texts(names).no_duplicates(),
        texts(before).no_duplicates(),
        after == before.push(names[j]),
        pick(j),
        forall|o: Seq<char>|
            texts(before).contains(o) <==> exists|k: int| 0 <= k < j && names[k]@ == o && pick(k),
    ensures
        texts(after).no_duplicates(),
        forall|o: Seq<char>|
            texts(after).contains(o) <==> exists|k: int| 0 <= k < j + 1 && names[k]@ == o && pick(k),
{
    assert(texts(after) =~= texts(before).push(names[j]@));
    assert(!texts(before).contains(names[j]@)) by {
        if texts(before).contains(names[j]@) {
            let k = choose|k: int| 0 <= k < j && names[k]@ == names[j]@ && pick(k);
            assert(texts(names)[k] == texts(names)[j]);
        }
    }
    assert forall|o: Seq<char>|
        texts(after).contains(o) <==> exists|k: int| 0 <= k < j + 1 && names[k]@ == o && pick(k) by {
        if texts(after).contains(o) {
            let m = choose|m: int| 0 <= m < texts(after).len() && texts(after)[m] == o;
            if m < before.len() {
                assert(texts(before)[m] == o);
                assert(texts(before).contains(o));
                let k = choose|k: int| 0 <= k < j && names[k]@ == o && pick(k);
                assert(0 <= k < j + 1 && names[k]@ == o && pick(k));
            } else {
                assert(names[j]@ == o);
            }
        }
        if exists|k: int| 0 <= k < j + 1 && names[k]@ == o && pick(k) {
            let k = choose|k: int| 0 <= k < j + 1 && names[k]@ == o && pick(k);
            if k < j {
                assert(texts(before).contains(o));
                let m = choose|m: int| 0 <= m < texts(before).len() && texts(before)[m] == o;
                assert(texts(after)[m] == o);
            } else {
                assert(texts(after)[before.len() as int] == o);
            }
        }
    }
}

proof fn lemma_round_len(voters: Seq<Seq<Seq<char>>>, excluded: Set<Seq<char>>)
    ensures
        round_votes(voters, excluded).len() <= voters.len(),
    decreases voters.len(),
{
    if voters.len() > 0 {
        lemma_round_len(voters.drop_last(), excluded);
    }
}

proof fn lemma_two_counts(pool: Seq<Seq<char>>, o: Seq<char>, q: Seq<char>)
    requires
        o != q,
    ensures
        count(pool, o) + count(pool, q) <= pool.len(),
    decreases pool.len(),
{
    if pool.len() > 0 {
        lemma_two_counts(pool.drop_last(), o, q);
    }
}

/// An option that more than half of the voters give their first vote among
/// the options not ignored is the sole winner, found in the first round.
pub proof fn lemma_first_round_majority(
    voters: Seq<Seq<Seq<char>>>,
    ignored: Set<Seq<char>>,
    o: Seq<char>,
)
    requires
        2 * count(round_votes(voters, ignored), o) > voters.len(),
    ensures
        rcv_result(voters, ignored) == Some(set![o]),
{
    let pool = round_votes(voters, ignored);
    let m = (voters.len() / 2) as nat;
    assert(Set::<Seq<char>>::empty().union(ignored) =~= ignored);
    lemma_round_len(voters, ignored);
    lemma_count_bound(pool, o);
    assert forall|q: Seq<char>| above(pool, m).contains(q) <==> q == o by {
        if q != o {
            lemma_two_counts(pool, o, q);
        }
    }
    assert(above(pool, m) =~= set![o]);
    assert(above(pool, m).contains(o));
}

proof fn lemma_ranked_finite(voters: Seq<Seq<Seq<char>>>)
    ensures
        ranked(voters).finite(),
    decreases voters.len(),
{
    if voters.len() == 0 {
        assert(ranked(voters) =~= Set::<Seq<char>>::empty());
    } else {
        lemma_ranked_finite(voters.drop_last());
        vstd::seq_lib::seq_to_set_is_finite(voters.last());
        assert forall|o: Seq<char>|
            ranked(voters).contains(o) <==> ranked(voters.drop_last()).union(voters.last().to_set()).contains(o) by {
            if ranked(voters).contains(o) {
                let i = choose|i: int| 0 <= i < voters.len() && voters[i].contains(o);
                if i < voters.len() - 1 {
                    assert(voters.drop_last()[i].contains(o));
                }
            }
            if ranked(voters.drop_last()).contains(o) {
                let i = choose|i: int| 0 <= i < voters.drop_last().len() && voters.drop_last()[i].contains(o);
                assert(voters[i].contains(o));
            }
            if voters.last().to_set().contains(o) {
                assert(voters[voters.len() - 1].contains(o));
            }
        }
        assert(ranked(voters) =~= ranked(voters.drop_last()).union(voters.last().to_set()));
    }
}

proof fn lemma_first_choice(ballot: Seq<Seq<char>>, excluded: Set<Seq<char>>)
    ensures
        match first_choice(ballot, excluded) {
            None => forall|o: Seq<char>| ballot.contains(o) ==> excluded.contains(o),
            Some(o) => ballot.contains(o) && !excluded.contains(o),
        },
    decreases ballot.len(),
{
    if ballot.len() > 0 {
        lemma_first_choice(ballot.drop_first(), excluded);
        assert(ballot.contains(ballot[0]));
        if excluded.contains(ballot[0]) {
            match first_choice(ballot.drop_first(), excluded) {
                None => {
                    assert forall|o: Seq<char>| ballot.contains(o) implies excluded.contains(o) by {
                        let k = choose|k: int| 0 <= k < ballot.len() && ballot[k] == o;
                        if k > 0 {
                            assert(ballot.drop_first()[k - 1] == o);
                        }
                    }
                },
                Some(o) => {
                    let k = choose|k: int| 0 <= k < ballot.drop_first().len() && ballot.drop_first()[k] == o;
                    assert(ballot[k + 1] == o);
                },
            }
        }
    }
}

proof fn lemma_round_votes(voters: Seq<Seq<Seq<char>>>, excluded: Set<Seq<char>>)
    ensures
        forall|p: Seq<char>|
            #[trigger] round_votes(voters, excluded).contains(p) ==> !excluded.contains(p) && ranked(voters).contains(p),
        round_votes(voters, excluded).len() == 0 ==> ranked(voters).subset_of(excluded),
    decreases voters.len(),
{
    if voters.len() > 0 {
        let rest = voters.drop_last();
        lemma_round_votes(rest, excluded);
        lemma_first_choice(voters.last(), excluded);
        let head = round_votes(rest, excluded);
        let tail = match first_choice(voters.last(), excluded) {
            Some(o) => seq![o],
            None => Seq::<Seq<char>>::empty(),
        };
        assert forall|p: Seq<char>|
            round_votes(voters, excluded).contains(p) implies !excluded.contains(p) && ranked(voters).contains(p) by {
            let k = choose|k: int| 0 <= k < (head + tail).len() && (head + tail)[k] == p;
            if k < head.len() {
                assert(head[k] == p);
                assert(head.contains(p));
                assert(ranked(rest).contains(p));
                let i = choose|i: int| 0 <= i < rest.len() && rest[i].contains(p);
                assert(voters[i].contains(p));
            } else {
                assert(tail[k - head.len()] == p);
                assert(voters[voters.len() - 1].contains(p));
            }
        }
        if round_votes(voters, excluded).len() == 0 {
            assert forall|o: Seq<char>| ranked(voters).contains(o) implies excluded.contains(o) by {
                let i = choose|i: int| 0 <= i < voters.len() && voters[i].contains(o);
                if i < voters.len() - 1 {
                    assert(rest[i].contains(o));
                    assert(ranked(rest).contains(o));
                }
            }
        }
    } else {
        assert(ranked(voters) =~= Set::<Seq<char>>::empty());
    }
}

spec fn least_at(pool: Seq<Seq<char>>, i: int, n: int) -> bool {
    forall|j: int| 0 <= j < n ==> count(pool, pool[i]) <= count(pool, #[trigger] pool[j])
}

proof fn lemma_least_index(pool: Seq<Seq<char>>, n: int)
    requires
        0 < n <= pool.len(),
    ensures
        exists|i: int| 0 <= i < n && #[trigger] least_at(pool, i, n),
    decreases n,
{
    if n > 1 {
        lemma_least_index(pool, n - 1);
        let i = choose|i: int| 0 <= i < n - 1 && #[trigger] least_at(pool, i, n - 1);
        if count(pool, pool[n - 1]) < count(pool, pool[i]) {
            assert(least_at(pool, n - 1, n));
        } else {
            assert(least_at(pool, i, n));
        }
    } else {
        assert(least_at(pool, 0, 1));
    }
}

/// The ranked options still in the race.
pub open spec fn remaining(voters: Seq<Seq<Seq<char>>>, ignored: Set<Seq<char>>, eliminated: Set<Seq<char>>) -> Set<Seq<char>> {
    ranked(voters).difference(eliminated.union(ignored))
}

proof fn lemma_runoff_stable(
    voters: Seq<Seq<Seq<char>>>,
    ignored: Set<Seq<char>>,
    eliminated: Set<Seq<char>>,
    f: nat,
    g: nat,
)
    requires
        f >= remaining(voters, ignored, eliminated).len() + 1,
        g >= f,
    ensures
        runoff(voters, ignored, eliminated, f) == runoff(voters, ignored, eliminated, g),
    decreases f,
{
    let ex = eliminated.union(ignored);
    let pool = round_votes(voters, ex);
    let winners = above(pool, (voters.len() / 2) as nat);
    let next = eliminated.union(fewest(pool));
    if winners == Set::<Seq<char>>::empty() && !ranked(voters).subset_of(next.union(ignored)) {
        lemma_ranked_finite(voters);
        lemma_round_votes(voters, ex);
        if pool.len() == 0 {
            assert(fewest(pool) =~= Set::<Seq<char>>::empty());
            assert(next.union(ignored) =~= ex);
        }
        lemma_least_index(pool, pool.len() as int);
        let i = choose|i: int| 0 <= i < pool.len() && #[trigger] least_at(pool, i, pool.len() as int);
        let o = pool[i];
        assert(pool.contains(o));
        assert forall|p: Seq<char>| pool.contains(p) implies count(pool, o) <= count(pool, p) by {
            let j = choose|j: int| 0 <= j < pool.len() && pool[j] == p;
        }
        assert(fewest(pool).contains(o));
        let before = remaining(voters, ignored, eliminated);
        let after = remaining(voters, ignored, next);
        assert(!ex.contains(o) && ranked(voters).contains(o));
        assert(before.contains(o));
        assert(after.subset_of(before.remove(o)));
        vstd::set_lib::lemma_len_subset(before, ranked(voters));
        vstd::set_lib::lemma_len_subset(after, before.remove(o));
        lemma_runoff_stable(voters, ignored, next, (f - 1) as nat, (g - 1) as nat);
    }
}

/// Rounds beyond one more than the number of ranked options change nothing:
/// every round that has no winner and does not end the count eliminates at
/// least one option still in the race.
pub proof fn lemma_rounds_suffice(voters: Seq<Seq<Seq<char>>>, ignored: Set<Seq<char>>, extra: nat)
    ensures
        runoff(voters, ignored, Set::empty(), ranked(voters).len() + 1 + extra) == rcv_result(voters, ignored),
{
    lemma_ranked_finite(voters);
    vstd::set_lib::lemma_len_subset(remaining(voters, ignored, Set::empty()), ranked(voters));
    lemma_runoff_stable(voters, ignored, Set::empty(), ranked(voters).len() + 1, ranked(voters).len() + 1 + extra);
}

} // verus!
