use vstd::prelude::*;
use crate::text::{texts, find_text};

verus! {

/// How many times `o` occurs in `votes`.
pub open spec fn count(votes: Seq<Seq<char>>, o: Seq<char>) -> nat
    decreases votes.len(),
{
    if votes.len() == 0 {
        0
    } else {
        count(votes.drop_last(), o) + if votes.last() == o {
            1nat
        } else {
            0nat
        }
    }
}

/// `o` occurs in `votes` and no option occurs more often.
pub open spec fn is_most_frequent(votes: Seq<Seq<char>>, o: Seq<char>) -> bool {
    &&& votes.contains(o)
    &&& forall|p: Seq<char>| votes.contains(p) ==> count(votes, p) <= count(votes, o)
}

/// `w` lists, once each, exactly the options tied for the most occurrences in `votes`.
pub open spec fn is_top_set(votes: Seq<Seq<char>>, w: Seq<Seq<char>>) -> bool {
    &&& w.no_duplicates()
    &&& forall|o: Seq<char>| w.contains(o) <==> is_most_frequent(votes, o)
}

/// `o` is counted at most once per vote, and at least once exactly when it occurs.
pub proof fn lemma_count_bound(votes: Seq<Seq<char>>, o: Seq<char>)
    ensures
        count(votes, o) <= votes.len(),
        count(votes, o) > 0 <==> votes.contains(o),
    decreases votes.len(),
{
    if votes.len() > 0 {
        lemma_count_bound(votes.drop_last(), o);
        if votes.drop_last().contains(o) {
            let k = choose|k: int| 0 <= k < votes.drop_last().len() && votes.drop_last()[k] == o;
            assert(votes[k] == o);
        }
        if votes.contains(o) && votes.last() != o {
            let k = choose|k: int| 0 <= k < votes.len() && votes[k] == o;
            assert(votes.drop_last()[k] == o);
        }
    }
}

/// The distinct options of `votes`, each with its number of occurrences.
pub fn tally<'a>(votes: &Vec<&'a str>) -> (r: (Vec<&'a str>, Vec<usize>))
    ensures
        r.0@.len() == r.1@.len(),
        texts(r.0@).no_duplicates(),
        forall|o: Seq<char>| texts(r.0@).contains(o) <==> texts(votes@).contains(o),
        forall|j: int| 0 <= j < r.1@.len() ==> r.1@[j] == count(texts(votes@), r.0@[j]@),
{
    let mut names: Vec<&'a str> = Vec::new();
    let mut counts: Vec<usize> = Vec::new();
    let mut i: usize = 0;
    while i < votes.len()
        invariant
            0 <= i <= votes@.len(),
            names@.len() == counts@.len(),
            texts(names@).no_duplicates(),
            forall|o: Seq<char>|
                texts(names@).contains(o) <==> texts(votes@).take(i as int).contains(o),
            forall|j: int|
                0 <= j < counts@.len() ==> counts@[j] == count(
                    texts(votes@).take(i as int),
                    names@[j]@,
                ),
        decreases votes@.len() - i,
    {
        let ghost pre = texts(votes@).take(i as int);
        let ghost post = texts(votes@).take(i + 1);
        assert(post.drop_last() =~= pre);
        assert(post.last() == votes@[i as int]@);
        let v = votes[i];
        match find_text(&names, v) {
            Some(j) => {
                proof {
                    lemma_count_bound(pre, v@);
                }
                let c = counts[j] + 1;
                counts.set(j, c);
                proof {
                    assert forall|k: int| 0 <= k < counts@.len() implies counts@[k] == count(
                        post,
                        names@[k]@,
                    ) by {
                        if k != j {
                            assert(texts(names@)[k] != texts(names@)[j as int]);
                        }
                    }
                    assert forall|o: Seq<char>|
                        texts(names@).contains(o) <==> post.contains(o) by {
                        if post.contains(o) {
                            let k = choose|k: int| 0 <= k < post.len() && post[k] == o;
                            if k < i {
                                assert(pre[k] == o);
                            } else {
                                assert(texts(names@)[j as int] == o);
                            }
                        }
                        if pre.contains(o) {
                            let k = choose|k: int| 0 <= k < pre.len() && pre[k] == o;
                            assert(post[k] == o);
                        }
                    }
                }
            },
            None => {
                proof {
                    lemma_count_bound(pre, v@);
                }
                let ghost old_names = names@;
                names.push(v);
                counts.push(1);
                proof {
                    assert(texts(names@) =~= texts(old_names).push(v@));
                    assert forall|k: int| 0 <= k < counts@.len() implies counts@[k] == count(
                        post,
                        names@[k]@,
                    ) by {
                        if k < old_names.len() {
                            assert(texts(old_names)[k] == old_names[k]@);
                            assert(texts(old_names).contains(old_names[k]@));
                        }
                    }
                    assert forall|o: Seq<char>|
                        texts(names@).contains(o) <==> post.contains(o) by {
                        if post.contains(o) {
                            let k = choose|k: int| 0 <= k < post.len() && post[k] == o;
                            if k < i {
                                assert(pre[k] == o);
                                assert(texts(old_names).contains(o));
                                let m = choose|m: int|
                                    0 <= m < old_names.len() && texts(old_names)[m] == o;
                                assert(texts(names@)[m] == o);
                            } else {
                                assert(texts(names@)[old_names.len() as int] == o);
                            }
                        }
                        if texts(names@).contains(o) {
                            let m = choose|m: int|
                                0 <= m < names@.len() && texts(names@)[m] == o;
                            if m < old_names.len() {
                                assert(texts(old_names)[m] == o);
                                assert(texts(old_names).contains(o));
                                assert(pre.contains(o));
                                let k = choose|k: int| 0 <= k < pre.len() && pre[k] == o;
                                assert(post[k] == o);
                            } else {
                                assert(post[i as int] == o);
                            }
                        }
                    }
                }
            },
        }
        i += 1;
    }
    assert(texts(votes@).take(votes@.len() as int) =~= texts(votes@));
    (names, counts)
}

/// The options whose count equals the largest count, in their listed order.
pub fn top_of<'a>(names: &Vec<&'a str>, counts: &Vec<usize>) -> (r: Vec<&'a str>)
    requires
        names@.len() == counts@.len(),
        texts(names@).no_duplicates(),
    ensures
        texts(r@).no_duplicates(),
        names@.len() > 0 ==> r@.len() > 0,
        forall|o: Seq<char>|
            texts(r@).contains(o) <==> exists|j: int|
                0 <= j < names@.len() && names@[j]@ == o && forall|k: int|
                    0 <= k < counts@.len() ==> counts@[k] <= counts@[j],
{
    let mut max_count: usize = 0;
    let mut winner: Vec<&'a str> = Vec::new();
    let mut j: usize = 0;
    while j < names.len()
        invariant
            0 <= j <= names@.len(),
            names@.len() == counts@.len(),
            texts(names@).no_duplicates(),
            texts(winner@).no_duplicates(),
            j > 0 ==> winner@.len() > 0,
            j == 0 ==> max_count == 0,
            forall|k: int| 0 <= k < j ==> counts@[k] <= max_count,
            forall|o: Seq<char>|
                texts(winner@).contains(o) <==> exists|k: int|
                    0 <= k < j && names@[k]@ == o && counts@[k] == max_count,
        decreases names@.len() - j,
    {
        let c = counts[j];
        let ghost old_winner = winner@;
        if max_count < c {
            winner = Vec::new();
            winner.push(names[j]);
            max_count = c;
            proof {
                assert(texts(winner@) =~= seq![names@[j as int]@]);
                assert forall|o: Seq<char>|
                    texts(winner@).contains(o) <==> exists|k: int|
                        0 <= k < j + 1 && names@[k]@ == o && counts@[k] == max_count by {
                    if texts(winner@).contains(o) {
                        assert(texts(winner@)[0] == o);
                    }
                    if exists|k: int| 0 <= k < j + 1 && names@[k]@ == o && counts@[k] == max_count {
                        let k = choose|k: int|
                            0 <= k < j + 1 && names@[k]@ == o && counts@[k] == max_count;
                        assert(k == j);
                        assert(texts(winner@)[0] == o);
                    }
                }
            }
        } else if max_count == c {
            winner.push(names[j]);
            proof {
                assert(texts(winner@) =~= texts(old_winner).push(names@[j as int]@));
                assert(!texts(old_winner).contains(names@[j as int]@)) by {
                    if texts(old_winner).contains(names@[j as int]@) {
                        let k = choose|k: int|
                            0 <= k < j && names@[k]@ == names@[j as int]@ && counts@[k]
                                == max_count;
                        assert(texts(names@)[k] == texts(names@)[j as int]);
                    }
                }
                assert forall|o: Seq<char>|
                    texts(winner@).contains(o) <==> exists|k: int|
                        0 <= k < j + 1 && names@[k]@ == o && counts@[k] == max_count by {
                    if texts(winner@).contains(o) {
                        let m = choose|m: int| 0 <= m < texts(winner@).len() && texts(winner@)[m] == o;
                        if m < old_winner.len() {
                            assert(texts(old_winner)[m] == o);
                            assert(texts(old_winner).contains(o));
                            let k = choose|k: int|
                                0 <= k < j && names@[k]@ == o && counts@[k] == max_count;
                            assert(0 <= k < j + 1 && names@[k]@ == o && counts@[k] == max_count);
                        } else {
                            assert(names@[j as int]@ == o);
                            assert(counts@[j as int] == max_count);
                        }
                    }
                    if exists|k: int| 0 <= k < j + 1 && names@[k]@ == o && counts@[k] == max_count {
                        let k = choose|k: int|
                            0 <= k < j + 1 && names@[k]@ == o && counts@[k] == max_count;
                        if k < j {
                            assert(texts(old_winner).contains(o));
                            let m = choose|m: int|
                                0 <= m < texts(old_winner).len() && texts(old_winner)[m] == o;
                            assert(texts(winner@)[m] == o);
                        } else {
                            assert(texts(winner@)[old_winner.len() as int] == o);
                        }
                    }
                }
            }
        }
        j += 1;
    }
    proof {
        assert forall|o: Seq<char>|
            texts(winner@).contains(o) <==> exists|j: int|
                0 <= j < names@.len() && names@[j]@ == o && forall|k: int|
                    0 <= k < counts@.len() ==> counts@[k] <= counts@[j] by {
            if exists|j: int|
                0 <= j < names@.len() && names@[j]@ == o && forall|k: int|
                    0 <= k < counts@.len() ==> counts@[k] <= counts@[j] {
                let j = choose|j: int|
                    0 <= j < names@.len() && names@[j]@ == o && forall|k: int|
                        0 <= k < counts@.len() ==> counts@[k] <= counts@[j];
                if names@.len() > 0 {
                    let w = texts(winner@)[0];
                    assert(texts(winner@).contains(w));
                    let k0 = choose|k: int| 0 <= k < names@.len() && names@[k]@ == w && counts@[k] == max_count;
                    assert(counts@[k0] <= counts@[j]);
                }
            }
        }
    }
    winner
}

/// The options tied for the most occurrences in `votes`, each listed once.
pub fn most_frequent<'a>(votes: &Vec<&'a str>) -> (r: Vec<&'a str>)
    ensures
        is_top_set(texts(votes@), texts(r@)),
        r@.len() == 0 <==> votes@.len() == 0,
{
    let (names, counts) = tally(votes);
    let r = top_of(&names, &counts);
    let ghost t = texts(votes@);
    proof {
        assert forall|o: Seq<char>| texts(r@).contains(o) <==> is_most_frequent(t, o) by {
            if texts(r@).contains(o) {
                let j = choose|j: int|
                    0 <= j < names@.len() && names@[j]@ == o && forall|k: int|
                        0 <= k < counts@.len() ==> counts@[k] <= counts@[j];
                assert(texts(names@)[j] == o);
                assert(texts(names@).contains(o));
                assert forall|p: Seq<char>| t.contains(p) implies count(t, p) <= count(t, o) by {
                    assert(texts(names@).contains(p));
                    let k = choose|k: int| 0 <= k < texts(names@).len() && texts(names@)[k] == p;
                    assert(counts@[k] <= counts@[j]);
                }
            }
            if is_most_frequent(t, o) {
                assert(texts(names@).contains(o));
                let j = choose|j: int| 0 <= j < texts(names@).len() && texts(names@)[j] == o;
                assert forall|k: int| 0 <= k < counts@.len() implies counts@[k] <= counts@[j] by {
                    assert(texts(names@)[k] == names@[k]@);
                    assert(texts(names@).contains(names@[k]@));
                    assert(t.contains(names@[k]@));
                }
                assert(names@[j]@ == o);
            }
        }
        if votes@.len() > 0 {
            assert(t.contains(t[0]));
            assert(texts(names@).contains(t[0]));
            assert(names@.len() > 0);
        }
        if r@.len() > 0 {
            assert(texts(r@).contains(texts(r@)[0]));
            assert(is_most_frequent(t, texts(r@)[0]));
            assert(t.len() > 0);
        }
    }
    r
}

} // verus!
