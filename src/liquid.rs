use vstd::prelude::*;
use crate::text::{texts, find_text, contains_text};

verus! {

/// The names of the voters, each with the targets of their ballot.
pub open spec fn voter_names(voters: Seq<(&str, Vec<&str>)>) -> Seq<Seq<char>> {
    voters.map_values(|v: (&str, Vec<&str>)| v.0@)
}

/// Whether some voter's ballot names `o`.
pub open spec fn is_target(voters: Seq<(&str, Vec<&str>)>, o: Seq<char>) -> bool {
    exists|i: int| 0 <= i < voters.len() && #[trigger] texts(voters[i].1@).contains(o)
}

/// The order of the rows and columns of the transition matrix of liquid
/// democracy: the delegates (the voters) first, then the options (the
/// targets that are not voters).
pub struct DelegationLayout<'a> {
    delegates: Vec<&'a str>,
    policies: Vec<&'a str>,
}

impl<'a> DelegationLayout<'a> {
    pub closed spec fn delegate_names(&self) -> Seq<Seq<char>> {
        texts(self.delegates@)
    }

    pub closed spec fn policy_names(&self) -> Seq<Seq<char>> {
        texts(self.policies@)
    }

    pub closed spec fn wf(&self) -> bool {
        &&& self.delegate_names().no_duplicates()
        &&& self.policy_names().no_duplicates()
        &&& forall|o: Seq<char>| self.delegate_names().contains(o) ==> !self.policy_names().contains(o)
        &&& self.delegates@.len() + self.policies@.len() <= usize::MAX
    }

    /// The layout for these voters; `None` only when the matrix order would
    /// not fit in `usize`.
    pub fn new(voters: &Vec<(&'a str, Vec<&'a str>)>) -> (r: Option<Self>)
        ensures
            match r {
                Some(l) => {
                    &&& l.wf()
                    &&& forall|o: Seq<char>|
                        l.delegate_names().contains(o) <==> voter_names(voters@).contains(o)
                    &&& forall|o: Seq<char>|
                        #[trigger] l.policy_names().contains(o) <==> is_target(voters@, o)
                            && !voter_names(voters@).contains(o)
                },
                None => true,
            },
            r is None ==> voter_names(voters@).to_set().len() + Set::new(
                |o: Seq<char>| is_target(voters@, o) && !voter_names(voters@).contains(o),
            ).len() > usize::MAX,
    {
        let (delegates, policies) = prepare_list(voters);
        if delegates.len() > usize::MAX - policies.len() {
            proof {
                let ds = texts(delegates@);
                let ps = texts(policies@);
                ds.unique_seq_to_set();
                ps.unique_seq_to_set();
                assert(ds.to_set() =~= voter_names(voters@).to_set());
                assert(ps.to_set() =~= Set::new(
                    |o: Seq<char>| is_target(voters@, o) && !voter_names(voters@).contains(o),
                ));
            }
            return None;
        }
        assert forall|o: Seq<char>| texts(delegates@).contains(o) implies !texts(policies@).contains(o) by {
            assert(voter_names(voters@).contains(o));
            if texts(policies@).contains(o) {
                assert(!voter_names(voters@).contains(o));
            }
        }
        Some(DelegationLayout { delegates, policies })
    }

    /// The order of the square matrix: delegates and options together.
    pub fn size(&self) -> (r: usize)
        requires
            self.wf(),
        ensures
            r == self.delegate_names().len() + self.policy_names().len(),
    {
        self.delegates.len() + self.policies.len()
    }

    pub fn delegates(&self) -> (r: &Vec<&'a str>)
        ensures
            texts(r@) == self.delegate_names(),
    {
        &self.delegates
    }

    pub fn policies(&self) -> (r: &Vec<&'a str>)
        ensures
            texts(r@) == self.policy_names(),
    {
        &self.policies
    }

    /// The column of a delegate: its position among the delegates.
    pub fn column_of(&self, delegate: &str) -> (r: Option<usize>)
        requires
            self.wf(),
        ensures
            match r {
                Some(x) => x < self.delegate_names().len() && self.delegate_names()[x as int]
                    == delegate@,
                None => !self.delegate_names().contains(delegate@),
            },
    {
        find_text(&self.delegates, delegate)
    }

    /// The row that receives weight sent to `target`: its position among the
    /// delegates, or the number of delegates plus its position among the options.
    pub fn row_of(&self, target: &str) -> (r: Option<usize>)
        requires
            self.wf(),
        ensures
            match r {
                Some(y) => {
                    ||| (y < self.delegate_names().len() && self.delegate_names()[y as int]
                        == target@)
                    ||| (self.delegate_names().len() <= y < self.delegate_names().len()
                        + self.policy_names().len() && self.policy_names()[y
                        - self.delegate_names().len()] == target@)
                },
                None => !self.delegate_names().contains(target@) && !self.policy_names().contains(
                    target@,
                ),
            },
    {
        match find_text(&self.delegates, target) {
            Some(y) => Some(y),
            None => match find_text(&self.policies, target) {
                Some(k) => Some(self.delegates.len() + k),
                None => None,
            },
        }
    }
}

proof fn lemma_push_contains(s: Seq<Seq<char>>, x: Seq<char>, o: Seq<char>)
    ensures
        s.push(x).contains(o) <==> s.contains(o) || o == x,
{
    if s.push(x).contains(o) && o != x {
        let k = choose|k: int| 0 <= k < s.push(x).len() && s.push(x)[k] == o;
        assert(s[k] == o);
    }
    if s.contains(o) {
        let k = choose|k: int| 0 <= k < s.len() && s[k] == o;
        assert(s.push(x)[k] == o);
    }
    if o == x {
        assert(s.push(x)[s.len() as int] == o);
    }
}

/// The distinct voters, and the distinct targets that are not voters, each
/// in order of first appearance.
pub fn prepare_list<'a>(voters: &Vec<(&'a str, Vec<&'a str>)>) -> (r: (Vec<&'a str>, Vec<&'a str>))
    ensures
        texts(r.0@).no_duplicates(),
        texts(r.1@).no_duplicates(),
        forall|o: Seq<char>| texts(r.0@).contains(o) <==> voter_names(voters@).contains(o),
        forall|o: Seq<char>|
            #[trigger] texts(r.1@).contains(o) <==> is_target(voters@, o) && !voter_names(voters@).contains(o),
{
    let mut delegates: Vec<&'a str> = Vec::new();
    let mut i: usize = 0;
    while i < voters.len()
        invariant
            0 <= i <= voters@.len(),
            texts(delegates@).no_duplicates(),
            forall|o: Seq<char>|
                texts(delegates@).contains(o) <==> voter_names(voters@).take(i as int).contains(o),
        decreases voters@.len() - i,
    {
        let name = voters[i].0;
        let ghost before = texts(delegates@);
        let ghost pre = voter_names(voters@).take(i as int);
        assert(voter_names(voters@).take(i + 1) =~= pre.push(name@));
        proof {
            pre.lemma_push_to_set_commute(name@);
        }
        if !contains_text(&delegates, name) {
            delegates.push(name);
            assert(texts(delegates@) =~= before.push(name@));
            proof {
                before.lemma_push_to_set_commute(name@);
                assert(before.to_set() =~= pre.to_set());
                assert(texts(delegates@).to_set() =~= pre.push(name@).to_set());
                assert forall|o: Seq<char>|
                    texts(delegates@).contains(o) <==> pre.push(name@).contains(o) by {
                    assert(texts(delegates@).to_set().contains(o) == texts(delegates@).contains(o));
                    assert(pre.push(name@).to_set().contains(o) == pre.push(name@).contains(o));
                }
            }
        } else {
            proof {
                assert(before.to_set() =~= pre.to_set());
                assert(pre.to_set().contains(name@));
                assert(pre.push(name@).to_set() =~= pre.to_set());
                assert forall|o: Seq<char>| before.contains(o) <==> pre.push(name@).contains(o) by {
                    assert(before.to_set().contains(o) == before.contains(o));
                    assert(pre.push(name@).to_set().contains(o) == pre.push(name@).contains(o));
                }
            }
        }
        i += 1;
    }
    assert(voter_names(voters@).take(voters@.len() as int) =~= voter_names(voters@));
    let mut policies: Vec<&'a str> = Vec::new();
    let mut i: usize = 0;
    while i < voters.len()
        invariant
            0 <= i <= voters@.len(),
            texts(policies@).no_duplicates(),
            forall|o: Seq<char>| texts(delegates@).contains(o) <==> voter_names(voters@).contains(o),
            forall|o: Seq<char>|
                texts(policies@).contains(o) <==> (exists|m: int|
                    0 <= m < i && #[trigger] texts(voters@[m].1@).contains(o)) && !voter_names(
                    voters@,
                ).contains(o),
        decreases voters@.len() - i,
    {
        let targets = &voters[i].1;
        let mut k: usize = 0;
        while k < targets.len()
            invariant
                0 <= k <= targets@.len(),
                0 <= i < voters@.len(),
                *targets == voters@[i as int].1,
                texts(policies@).no_duplicates(),
                forall|o: Seq<char>| texts(delegates@).contains(o) <==> voter_names(voters@).contains(o),
                forall|o: Seq<char>|
                    texts(policies@).contains(o) <==> ((exists|m: int|
                        0 <= m < i && #[trigger] texts(voters@[m].1@).contains(o)) || texts(
                        targets@,
                    ).take(k as int).contains(o)) && !voter_names(voters@).contains(o),
            decreases targets@.len() - k,
        {
            let t = targets[k];
            let ghost before = texts(policies@);
            let ghost pre = texts(targets@).take(k as int);
            assert(texts(targets@).take(k + 1) =~= pre.push(t@));
            proof {
                pre.lemma_push_to_set_commute(t@);
                assert forall|o: Seq<char>| pre.push(t@).contains(o) <==> pre.contains(o) || o == t@ by {
                    assert(pre.push(t@).to_set().contains(o) == pre.push(t@).contains(o));
                    assert(pre.to_set().contains(o) == pre.contains(o));
                }
            }
            let is_delegate = contains_text(&delegates, t);
            let is_policy = contains_text(&policies, t);
            if !is_delegate && !is_policy {
                policies.push(t);
                proof {
                    assert(texts(policies@) =~= before.push(t@));
                    before.lemma_push_to_set_commute(t@);
                    assert forall|o: Seq<char>|
                        texts(policies@).contains(o) <==> before.contains(o) || o == t@ by {
                        assert(texts(policies@).to_set().contains(o) == texts(policies@).contains(o));
                        assert(before.to_set().contains(o) == before.contains(o));
                    }
                }
            }
            proof {
                assert forall|o: Seq<char>|
                    texts(policies@).contains(o) <==> ((exists|m: int|
                        0 <= m < i && #[trigger] texts(voters@[m].1@).contains(o)) || pre.push(t@).contains(o))
                        && !voter_names(voters@).contains(o) by {
                    lemma_push_contains(pre, t@, o);
                    if !is_delegate && !is_policy {
                        lemma_push_contains(before, t@, o);
                    } else {
                        assert(texts(policies@) == before);
                    }
                    if o == t@ {
                        if is_delegate {
                            assert(voter_names(voters@).contains(o));
                        } else if is_policy {
                            assert(before.contains(o));
                        } else {
                            assert(!voter_names(voters@).contains(o));
                        }
                    } else {
                        assert(texts(policies@).contains(o) == before.contains(o));
                    }
                }
            }
            k += 1;
        }
        assert(texts(targets@).take(targets@.len() as int) =~= texts(targets@));
        assert forall|o: Seq<char>|
            texts(policies@).contains(o) <==> (exists|m: int|
                0 <= m < i + 1 && #[trigger] texts(voters@[m].1@).contains(o)) && !voter_names(
                voters@,
            ).contains(o) by {
            if exists|m: int| 0 <= m < i + 1 && #[trigger] texts(voters@[m].1@).contains(o) {
                let m = choose|m: int| 0 <= m < i + 1 && #[trigger] texts(voters@[m].1@).contains(o);
                if m < i {
                    assert(exists|m: int| 0 <= m < i && #[trigger] texts(voters@[m].1@).contains(o));
                }
            }
        }
        i += 1;
    }
    (delegates, policies)
}

} // verus!
