use vstd::prelude::*;
use crate::text::{texts, ballots, contains_text};
use crate::tally::{count, is_top_set, is_most_frequent, most_frequent, lemma_count_bound};

verus! {

/// The options of `ballot` that are not in `ignored`, in ballot order.
pub open spec fn kept(ballot: Seq<Seq<char>>, ignored: Seq<Seq<char>>) -> Seq<Seq<char>>
    decreases ballot.len(),
{
    if ballot.len() == 0 {
        ballot
    } else if ignored.contains(ballot.last()) {
        kept(ballot.drop_last(), ignored)
    } else {
        kept(ballot.drop_last(), ignored).push(ballot.last())
    }
}

/// Every approval of every voter that is not for an ignored option.
pub open spec fn approvals(voters: Seq<Seq<Seq<char>>>, ignored: Seq<Seq<char>>) -> Seq<Seq<char>>
    decreases voters.len(),
{
    if voters.len() == 0 {
        Seq::empty()
    } else {
        approvals(voters.drop_last(), ignored) + kept(voters.last(), ignored)
    }
}

/// What a round of approval voting yields: `None` when no approval is left,
/// otherwise every remaining option tied for the most approvals.
pub open spec fn approval_outcome(
    voters: Seq<Seq<Seq<char>>>,
    ignored: Seq<Seq<char>>,
    r: Option<Seq<Seq<char>>>,
) -> bool {
    match r {
        None => approvals(voters, ignored).len() == 0,
        Some(w) => approvals(voters, ignored).len() > 0 && is_top_set(approvals(voters, ignored), w),
    }
}

/// The characters of each winner, if there are winners.
pub open spec fn opt_texts(r: Option<Vec<&str>>) -> Option<Seq<Seq<char>>> {
    match r {
        None => None,
        Some(w) => Some(texts(w@)),
    }
}

/// Approval voting: each voter lists the options they approve of.
pub struct ApprovalVoting<'a> {
    voters: Vec<Vec<&'a str>>,
    ignore: Vec<&'a str>,
}

impl<'a> ApprovalVoting<'a> {
    /// The voters' ballots.
    pub closed spec fn voters(&self) -> Seq<Seq<Seq<char>>> {
        ballots(self.voters@)
    }

    /// The options excluded from counting.
    pub closed spec fn ignored(&self) -> Seq<Seq<char>> {
        texts(self.ignore@)
    }

    pub fn new(voters: Vec<Vec<&'a str>>) -> (r: Self)
        ensures
            r.voters() == ballots(voters@),
            r.ignored() == Seq::<Seq<char>>::empty(),
    {
        let r = Self { voters, ignore: Vec::new() };
        assert(r.ignored() =~= Seq::<Seq<char>>::empty());
        r
    }

    /// Excludes `ignore` from every later count.
    pub fn ignore(&mut self, ignore: &'a str)
        ensures
            final(self).voters() == old(self).voters(),
            final(self).ignored() == old(self).ignored().push(ignore@),
    {
        self.ignore.push(ignore);
        assert(texts(self.ignore@) =~= texts(old(self).ignore@).push(ignore@));
    }

    fn approved(&self) -> (r: Vec<&'a str>)
        ensures
            texts(r@) == approvals(self.voters(), self.ignored()),
    {
        let mut pool: Vec<&'a str> = Vec::new();
        let mut i: usize = 0;
        while i < self.voters.len()
            invariant
                0 <= i <= self.voters@.len(),
                texts(pool@) == approvals(ballots(self.voters@).take(i as int), texts(self.ignore@)),
            decreases self.voters@.len() - i,
        {
            let ballot = &self.voters[i];
            let ghost base = texts(pool@);
            let mut k: usize = 0;
            while k < ballot.len()
                invariant
                    0 <= k <= ballot@.len(),
                    texts(pool@) == base + kept(texts(ballot@).take(k as int), texts(self.ignore@)),
                decreases ballot@.len() - k,
            {
                let ghost before = texts(pool@);
                assert(texts(ballot@).take(k + 1).drop_last() =~= texts(ballot@).take(k as int));
                if !contains_text(&self.ignore, ballot[k]) {
                    pool.push(ballot[k]);
                    assert(texts(pool@) =~= before.push(ballot@[k as int]@));
                }
                k += 1;
            }
            assert(texts(ballot@).take(ballot@.len() as int) =~= texts(ballot@));
            assert(ballots(self.voters@).take(i + 1).drop_last() =~= ballots(self.voters@).take(i as int));
            i += 1;
        }
        assert(ballots(self.voters@).take(self.voters@.len() as int) =~= ballots(self.voters@));
        pool
    }

    /// The options tied for the most approvals among those not ignored, or
    /// `None` when no approval for such an option is left.
    pub fn calculate(&self) -> (r: Option<Vec<&'a str>>)
        ensures
            approval_outcome(self.voters(), self.ignored(), opt_texts(r)),
    {
        let pool = self.approved();
        let winner = most_frequent(&pool);
        if winner.len() == 0 {
            return None;
        }
        Some(winner)
    }

    /// Computes the current winners, then excludes them from later rounds.
    pub fn next(&mut self) -> (r: Option<Vec<&'a str>>)
        ensures
            approval_outcome(old(self).voters(), old(self).ignored(), opt_texts(r)),
            final(self).voters() == old(self).voters(),
            final(self).ignored() == match r {
                None => old(self).ignored(),
                Some(w) => old(self).ignored() + texts(w@),
            },
    {
        let result = self.calculate();
        if let Some(winners) = &result {
            let mut j: usize = 0;
            while j < winners.len()
                invariant
                    0 <= j <= winners@.len(),
                    self.voters() == old(self).voters(),
                    self.ignored() == old(self).ignored() + texts(winners@).take(j as int),
                decreases winners@.len() - j,
            {
                self.ignore(winners[j]);
                assert(texts(winners@).take(j + 1) =~= texts(winners@).take(j as int).push(winners@[j as int]@));
                assert(old(self).ignored() + texts(winners@).take(j + 1) =~= (old(self).ignored() + texts(winners@).take(j as int)).push(winners@[j as int]@));
                j += 1;
            }
            assert(texts(winners@).take(winners@.len() as int) =~= texts(winners@));
        } else {
            assert(self.ignored() =~= old(self).ignored());
        }
        result
    }
}

proof fn lemma_count_concat(x: Seq<Seq<char>>, y: Seq<Seq<char>>, o: Seq<char>)
    ensures
        count(x + y, o) == count(x, o) + count(y, o),
    decreases y.len(),
{
    if y.len() > 0 {
        assert((x + y).drop_last() =~= x + y.drop_last());
        lemma_count_concat(x, y.drop_last(), o);
    } else {
        assert(x + y =~= x);
    }
}

proof fn lemma_kept_count(ballot: Seq<Seq<char>>, ignored: Seq<Seq<char>>, a: Seq<char>, o: Seq<char>)
    ensures
        count(kept(ballot, ignored.push(a)), o) == if o == a {
            0
        } else {
            count(kept(ballot, ignored), o)
        },
    decreases ballot.len(),
{
    if ballot.len() > 0 {
        lemma_kept_count(ballot.drop_last(), ignored, a, o);
        let l = ballot.last();
        assert(ignored.push(a).contains(l) <==> ignored.contains(l) || l == a) by {
            if ignored.push(a).contains(l) && l != a {
                let k = choose|k: int| 0 <= k < ignored.push(a).len() && ignored.push(a)[k] == l;
                assert(ignored[k] == l);
            }
            if ignored.contains(l) {
                let k = choose|k: int| 0 <= k < ignored.len() && ignored[k] == l;
                assert(ignored.push(a)[k] == l);
            }
            if l == a {
                assert(ignored.push(a)[ignored.len() as int] == l);
            }
        }
        assert(kept(ballot.drop_last(), ignored.push(a)).push(l).drop_last() =~= kept(ballot.drop_last(), ignored.push(a)));
        assert(kept(ballot.drop_last(), ignored).push(l).drop_last() =~= kept(ballot.drop_last(), ignored));
    }
}

proof fn lemma_approvals_count(voters: Seq<Seq<Seq<char>>>, ignored: Seq<Seq<char>>, a: Seq<char>, o: Seq<char>)
    ensures
        count(approvals(voters, ignored.push(a)), o) == if o == a {
            0
        } else {
            count(approvals(voters, ignored), o)
        },
    decreases voters.len(),
{
    if voters.len() > 0 {
        lemma_approvals_count(voters.drop_last(), ignored, a, o);
        lemma_kept_count(voters.last(), ignored, a, o);
        lemma_count_concat(approvals(voters.drop_last(), ignored.push(a)), kept(voters.last(), ignored.push(a)), o);
        lemma_count_concat(approvals(voters.drop_last(), ignored), kept(voters.last(), ignored), o);
    }
}

/// Ignoring the leading option makes the runner-up the sole winner: when
/// `b` has more approvals than every option other than `a`, the winners once
/// `a` is ignored are exactly `b`.
pub proof fn lemma_ignore_leader(
    voters: Seq<Seq<Seq<char>>>,
    ignored: Seq<Seq<char>>,
    a: Seq<char>,
    b: Seq<char>,
    winners: Seq<Seq<char>>,
)
    requires
        a != b,
        approvals(voters, ignored).contains(b),
        forall|o: Seq<char>|
            approvals(voters, ignored).contains(o) && o != a && o != b ==> count(
                approvals(voters, ignored),
                o,
            ) < count(approvals(voters, ignored), b),
        is_top_set(approvals(voters, ignored.push(a)), winners),
    ensures
        winners.to_set() == set![b],
{
    let before = approvals(voters, ignored);
    let after = approvals(voters, ignored.push(a));
    assert forall|o: Seq<char>| winners.contains(o) <==> o == b by {
        lemma_approvals_count(voters, ignored, a, o);
        lemma_approvals_count(voters, ignored, a, b);
        lemma_count_bound(after, o);
        lemma_count_bound(before, o);
        lemma_count_bound(after, b);
        lemma_count_bound(before, b);
        if o == b {
            assert forall|p: Seq<char>| after.contains(p) implies count(after, p) <= count(after, b) by {
                lemma_approvals_count(voters, ignored, a, p);
                lemma_count_bound(after, p);
                lemma_count_bound(before, p);
            }
            assert(is_most_frequent(after, b));
        } else if winners.contains(o) {
            assert(is_most_frequent(after, o));
            assert(count(after, b) <= count(after, o));
        }
    }
    assert(winners.to_set() =~= set![b]);
}

} // verus!
