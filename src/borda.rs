use vstd::prelude::*;
use crate::text::{texts, ballots, find_text};
use crate::rcv::ranked;

verus! {

/// The points that position `k` of a ranking of `len` options earns.
pub open spec fn position_points(len: nat, k: nat) -> nat {
    (len - k) as nat
}

/// The points that `o` earns from the first `prefix.len()` positions of a
/// ranking of `len` options.
pub open spec fn points_in(prefix: Seq<Seq<char>>, len: nat, o: Seq<char>) -> nat
    decreases prefix.len(),
{
    if prefix.len() == 0 {
        0
    } else {
        points_in(prefix.drop_last(), len, o) + if prefix.last() == o {
            position_points(len, (prefix.len() - 1) as nat)
        } else {
            0
        }
    }
}

/// All points that the first `k` positions of a ranking of `len` options award.
pub open spec fn awarded(k: nat, len: nat) -> nat
    decreases k,
{
    if k == 0 {
        0
    } else {
        awarded((k - 1) as nat, len) + position_points(len, (k - 1) as nat)
    }
}

/// The points that `o` earns from one ranking.
pub open spec fn ballot_points(ballot: Seq<Seq<char>>, o: Seq<char>) -> nat {
    points_in(ballot, ballot.len(), o)
}

/// The Borda score of `o`: its points summed over all rankings.
pub open spec fn borda_score(voters: Seq<Seq<Seq<char>>>, o: Seq<char>) -> nat
    decreases voters.len(),
{
    if voters.len() == 0 {
        0
    } else {
        borda_score(voters.drop_last(), o) + ballot_points(voters.last(), o)
    }
}

/// All points that all rankings award.
pub open spec fn total_points(voters: Seq<Seq<Seq<char>>>) -> nat
    decreases voters.len(),
{
    if voters.len() == 0 {
        0
    } else {
        total_points(voters.drop_last()) + awarded(voters.last().len(), voters.last().len())
    }
}

proof fn lemma_awarded_mono(a: nat, b: nat, len: nat)
    requires
        a <= b,
    ensures
        awarded(a, len) <= awarded(b, len),
    decreases b - a,
{
    if a < b {
        lemma_awarded_mono(a, (b - 1) as nat, len);
    }
}

proof fn lemma_total_mono(voters: Seq<Seq<Seq<char>>>, a: int)
    requires
        0 <= a <= voters.len(),
    ensures
        total_points(voters.take(a)) <= total_points(voters),
    decreases voters.len() - a,
{
    if a < voters.len() {
        lemma_total_mono(voters, a + 1);
        assert(voters.take(a + 1).drop_last() =~= voters.take(a));
    } else {
        assert(voters.take(a) =~= voters);
    }
}

/// Borda count: each voter ranks options, most preferred first.
pub struct BordaCount<'a> {
    voters: Vec<Vec<&'a str>>,
}

impl<'a> BordaCount<'a> {
    /// The voters' rankings.
    pub closed spec fn voters(&self) -> Seq<Seq<Seq<char>>> {
        ballots(self.voters@)
    }

    pub fn new(voters: Vec<Vec<&'a str>>) -> (r: Self)
        ensures
            r.voters() == ballots(voters@),
    {
        Self { voters }
    }

    /// Each ranked option once, with its Borda score: the option at position
    /// `i` of a ranking of `L` options earns `L - i` points.
    pub fn calculate(&self) -> (r: Vec<(&'a str, usize)>)
        requires
            total_points(self.voters()) <= usize::MAX,
        ensures
            texts(r@.map_values(|e: (&str, usize)| e.0)).no_duplicates(),
            texts(r@.map_values(|e: (&str, usize)| e.0)).to_set() == ranked(self.voters()),
            forall|j: int| 0 <= j < r@.len() ==> r@[j].1 == borda_score(self.voters(), r@[j].0@),
    {
        let ghost vs = self.voters();
        let mut names: Vec<&'a str> = Vec::new();
        let mut scores: Vec<usize> = Vec::new();
        let ghost mut spent: nat = 0;
        let mut v: usize = 0;
        assert(texts(names@).to_set() =~= ranked(vs.take(0)));
        while v < self.voters.len()
            invariant
                0 <= v <= self.voters@.len(),
                vs == self.voters(),
                total_points(vs) <= usize::MAX,
                names@.len() == scores@.len(),
                texts(names@).no_duplicates(),
                spent == total_points(vs.take(v as int)),
                forall|j: int| 0 <= j < scores@.len() ==> scores@[j] <= spent,
                texts(names@).to_set() == ranked(vs.take(v as int)),
                forall|j: int|
                    0 <= j < scores@.len() ==> scores@[j] == borda_score(vs.take(v as int), names@[j]@),
            decreases self.voters@.len() - v,
        {
            let votes = &self.voters[v];
            let ghost b = texts(votes@);
            let ghost base = spent;
            let ghost take_v = vs.take(v as int);
            assert(vs[v as int] == b);
            assert(vs.take(v + 1).drop_last() =~= take_v);
            assert(vs.take(v + 1).last() == b);
            proof {
                lemma_total_mono(vs, v + 1);
                assert(b.take(0).to_set() =~= Set::<Seq<char>>::empty());
                assert(ranked(take_v).union(b.take(0).to_set()) =~= ranked(take_v));
            }
            let len = votes.len();
            let mut i: usize = 0;
            while i < len
                invariant
                    0 <= i <= len,
                    len == votes@.len(),
                    0 <= v < self.voters@.len(),
                    vs == self.voters(),
                    b == texts(votes@),
                    vs[v as int] == b,
                    take_v == vs.take(v as int),
                    base == total_points(take_v),
                    base + awarded(len as nat, len as nat) <= usize::MAX,
                    names@.len() == scores@.len(),
                    texts(names@).no_duplicates(),
                    spent == base + awarded(i as nat, len as nat),
                    forall|j: int| 0 <= j < scores@.len() ==> scores@[j] <= spent,
                    texts(names@).to_set() == ranked(take_v).union(b.take(i as int).to_set()),
                    forall|j: int|
                        0 <= j < scores@.len() ==> scores@[j] == borda_score(take_v, names@[j]@)
                            + points_in(b.take(i as int), len as nat, names@[j]@),
                decreases len - i,
            {
                let ghost pre = b.take(i as int);
                let ghost post = b.take(i + 1);
                assert(post.drop_last() =~= pre);
                assert(post.last() == votes@[i as int]@);
                assert(post =~= pre.push(votes@[i as int]@));
                proof {
                    lemma_awarded_mono((i + 1) as nat, len as nat, len as nat);
                    pre.lemma_push_to_set_commute(votes@[i as int]@);
                }
                let value: usize = len - i;
                let vote = votes[i];
                match find_text(&names, vote) {
                    Some(j) => {
                        let s = scores[j] + value;
                        scores.set(j, s);
                        proof {
                            assert forall|k: int| 0 <= k < scores@.len() implies scores@[k]
                                == borda_score(take_v, names@[k]@) + points_in(post, len as nat, names@[k]@) by {
                                if k != j {
                                    assert(texts(names@)[k] != texts(names@)[j as int]);
                                }
                            }
                            assert(texts(names@)[j as int] == vote@);
                            assert(texts(names@).to_set().contains(vote@));
                            assert(texts(names@).to_set() =~= ranked(take_v).union(post.to_set()));
                        }
                    },
                    None => {
                        let ghost old_names = names@;
                        names.push(vote);
                        scores.push(value);
                        proof {
                            assert(texts(names@) =~= texts(old_names).push(vote@));
                            texts(old_names).lemma_push_to_set_commute(vote@);
                            assert(!texts(old_names).to_set().contains(vote@));
                            assert(!ranked(take_v).contains(vote@));
                            assert(!pre.contains(vote@));
                            lemma_points_absent(pre, len as nat, vote@);
                            lemma_score_absent(take_v, vote@);
                            assert forall|k: int| 0 <= k < scores@.len() implies scores@[k]
                                == borda_score(take_v, names@[k]@) + points_in(post, len as nat, names@[k]@) by {
                                if k < old_names.len() {
                                    assert(texts(old_names)[k] == old_names[k]@);
                                    assert(texts(old_names).contains(old_names[k]@));
                                }
                            }
                            assert(texts(names@).to_set() =~= ranked(take_v).union(post.to_set()));
                        }
                    },
                }
                proof {
                    spent = spent + value as nat;
                }
                i += 1;
            }
            assert(b.take(len as int) =~= b);
            proof {
                assert forall|o: Seq<char>|
                    ranked(vs.take(v + 1)).contains(o) <==> ranked(take_v).union(b.to_set()).contains(o) by {
                    let nxt = vs.take(v + 1);
                    if ranked(nxt).contains(o) {
                        let m = choose|m: int| 0 <= m < nxt.len() && nxt[m].contains(o);
                        if m < v {
                            assert(take_v[m].contains(o));
                        }
                    }
                    if ranked(take_v).contains(o) {
                        let m = choose|m: int| 0 <= m < take_v.len() && take_v[m].contains(o);
                        assert(vs.take(v + 1)[m].contains(o));
                    }
                    if b.to_set().contains(o) {
                        assert(vs.take(v + 1)[v as int].contains(o));
                    }
                }
                assert(ranked(vs.take(v + 1)) =~= ranked(take_v).union(b.to_set()));
            }
            v += 1;
        }
        assert(vs.take(self.voters@.len() as int) =~= vs);
        let mut r: Vec<(&'a str, usize)> = Vec::new();
        let mut j: usize = 0;
        while j < names.len()
            invariant
                0 <= j <= names@.len(),
                names@.len() == scores@.len(),
                r@.len() == j,
                forall|k: int| 0 <= k < j ==> r@[k] == (names@[k], scores@[k]),
            decreases names@.len() - j,
        {
            r.push((names[j], scores[j]));
            j += 1;
        }
        assert(r@.map_values(|e: (&str, usize)| e.0) =~= names@);
        r
    }
}

proof fn lemma_points_absent(prefix: Seq<Seq<char>>, len: nat, o: Seq<char>)
    requires
        !prefix.contains(o),
    ensures
        points_in(prefix, len, o) == 0,
    decreases prefix.len(),
{
    if prefix.len() > 0 {
        assert(!prefix.drop_last().contains(o)) by {
            if prefix.drop_last().contains(o) {
                let k = choose|k: int| 0 <= k < prefix.drop_last().len() && prefix.drop_last()[k] == o;
                assert(prefix[k] == o);
            }
        }
        lemma_points_absent(prefix.drop_last(), len, o);
    }
}

proof fn lemma_score_absent(voters: Seq<Seq<Seq<char>>>, o: Seq<char>)
    requires
        !ranked(voters).contains(o),
    ensures
        borda_score(voters, o) == 0,
    decreases voters.len(),
{
    if voters.len() > 0 {
        assert(!ranked(voters.drop_last()).contains(o)) by {
            if ranked(voters.drop_last()).contains(o) {
                let m = choose|m: int| 0 <= m < voters.drop_last().len() && voters.drop_last()[m].contains(o);
                assert(voters[m].contains(o));
            }
        }
        lemma_score_absent(voters.drop_last(), o);
        assert(!voters.last().contains(o)) by {
            if voters.last().contains(o) {
                assert(voters[voters.len() - 1].contains(o));
            }
        }
        lemma_points_absent(voters.last(), voters.last().len(), o);
    }
}

proof fn lemma_awarded_closed_form(k: nat, len: nat)
    requires
        k <= len,
    ensures
        awarded(k, len) * 2 == k * (2 * len + 1 - k),
    decreases k,
{
    if k > 0 {
        lemma_awarded_closed_form((k - 1) as nat, len);
        let a: int = awarded((k - 1) as nat, len) as int;
        let kk: int = k as int;
        let l: int = len as int;
        assert(awarded(k, len) == a + (l - (kk - 1)));
        assert(a * 2 == (kk - 1) * (2 * l + 1 - (kk - 1)));
        assert((kk - 1) * (2 * l + 1 - (kk - 1)) + 2 * (l - (kk - 1)) == kk * (2 * l + 1 - kk))
            by (nonlinear_arith);
    } else {
        assert(k * (2 * len + 1 - k) == 0) by (nonlinear_arith)
            requires
                k == 0,
        ;
    }
}

proof fn lemma_points_at(b: Seq<Seq<char>>, k: int, n: int)
    requires
        b.no_duplicates(),
        0 <= k < n <= b.len(),
    ensures
        points_in(b.take(n), b.len(), b[k]) == b.len() - k,
    decreases n,
{
    let p = b.take(n);
    assert(p.drop_last() =~= b.take(n - 1));
    if n == k + 1 {
        assert(!b.take(k).contains(b[k])) by {
            if b.take(k).contains(b[k]) {
                let x = choose|x: int| 0 <= x < b.take(k).len() && b.take(k)[x] == b[k];
                assert(b[x] == b[k]);
            }
        }
        lemma_points_absent(b.take(k), b.len(), b[k]);
    } else {
        lemma_points_at(b, k, n - 1);
        assert(p.last() == b[n - 1]);
    }
}

/// The points that the first `k` options of `ballot` earn from it.
pub open spec fn points_of_first(ballot: Seq<Seq<char>>, k: nat) -> nat
    decreases k,
{
    if k == 0 {
        0
    } else {
        points_of_first(ballot, (k - 1) as nat) + ballot_points(ballot, ballot[k - 1])
    }
}

/// The options of a ranking of `L` distinct options earn `L * (L + 1) / 2`
/// points from it in all.
pub proof fn lemma_ranking_awards_triangle(ballot: Seq<Seq<char>>)
    requires
        ballot.no_duplicates(),
    ensures
        points_of_first(ballot, ballot.len()) * 2 == ballot.len() * (ballot.len() + 1),
{
    lemma_points_sum(ballot, ballot.len());
    lemma_awarded_closed_form(ballot.len(), ballot.len());
}

proof fn lemma_points_sum(ballot: Seq<Seq<char>>, k: nat)
    requires
        ballot.no_duplicates(),
        k <= ballot.len(),
    ensures
        points_of_first(ballot, k) == awarded(k, ballot.len()),
    decreases k,
{
    if k > 0 {
        lemma_points_sum(ballot, (k - 1) as nat);
        lemma_points_at(ballot, k - 1, ballot.len() as int);
        assert(ballot.take(ballot.len() as int) =~= ballot);
    }
}

} // verus!
