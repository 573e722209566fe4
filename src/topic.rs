use vstd::prelude::*;
use crate::idmap::{IdMap, lemma_prefix_step, lemma_entry_in_map};
use crate::text::same_text;

verus! {

/// A ballot weight, held as the IEEE-754 binary64 encoding of a real
/// number. The ballot model stores, compares and hashes weights; it does no
/// arithmetic on them.
#[derive(Clone, Copy, PartialEq, Eq, Structural, Debug)]
pub struct Weight {
    pub bits: u64,
}

/// One delegate's ballot: the weight given to each target.
pub type Ballot = IdMap<Weight>;

pub open spec fn names_view(m: Map<u128, String>) -> Map<u128, Seq<char>> {
    m.map_values(|s: String| s@)
}

/// The characters of each string.
pub open spec fn labels(v: Seq<String>) -> Seq<Seq<char>> {
    v.map_values(|s: String| s@)
}

pub open spec fn ballots_view(m: Map<u128, Ballot>) -> Map<u128, Map<u128, Weight>> {
    m.map_values(|b: Ballot| b@)
}

/// The outer map and every ballot in it are well formed.
pub open spec fn ballots_wf(m: IdMap<Ballot>) -> bool {
    &&& m.wf()
    &&& forall|k: u128| #[trigger] m@.contains_key(k) ==> m@[k].wf()
}

/// Relies on uuid's Uuid::new_v4 and Uuid::as_u128: a random version-4
/// identifier, as its 128-bit value.
#[verifier::external_body]
fn random_id() -> (r: u128) {
    uuid::Uuid::new_v4().as_u128()
}

/// Whether some value of `m` holds the characters of `name`; if so, the
/// first key in order that has it.
fn key_of_name(m: &IdMap<String>, name: &str) -> (r: Option<u128>)
    requires
        m.wf(),
    ensures
        match r {
            Some(k) => m@.contains_key(k) && m@[k]@ == name@ && forall|j: int|
                0 <= j < m.entries().len() && #[trigger] m.entries()[j].0 < k ==> m.entries()[j].1@ != name@,
            None => forall|k: u128| m@.contains_key(k) ==> m@[k]@ != name@,
        },
{
    proof {
        m.lemma_view();
    }
    let mut i: usize = 0;
    while i < m.len()
        invariant
            0 <= i <= m.entries().len(),
            m.wf(),
            crate::idmap::sorted_keys(m.entries()),
            m@ == crate::idmap::entries_map(m.entries()),
            forall|j: int| 0 <= j < i ==> m.entries()[j].1@ != name@,
        decreases m.entries().len() - i,
    {
        let (k, v) = m.entry(i);
        if same_text(v.as_str(), name) {
            proof {
                lemma_entry_in_map(m.entries(), i as int);
                assert forall|j: int|
                    0 <= j < m.entries().len() && #[trigger] m.entries()[j].0 < k implies m.entries()[j].1@ != name@ by {
                    if j >= i {
                        if j > i {
                            assert(m.entries()[i as int].0 < m.entries()[j].0);
                        }
                    }
                }
            }
            return Some(k);
        }
        i += 1;
    }
    proof {
        assert forall|k: u128| m@.contains_key(k) implies m@[k]@ != name@ by {
            let j = choose|j: int| 0 <= j < m.entries().len() && m.entries()[j].0 == k;
            lemma_entry_in_map(m.entries(), j);
        }
    }
    None
}

/// The distinct values of `m`, each once.
fn distinct_values(m: &IdMap<String>) -> (r: Vec<String>)
    requires
        m.wf(),
    ensures
        labels(r@).no_duplicates(),
        labels(r@).to_set() == names_view(m@).values(),
{
    proof {
        m.lemma_view();
    }
    let mut out: Vec<String> = Vec::new();
    let mut i: usize = 0;
    while i < m.len()
        invariant
            0 <= i <= m.entries().len(),
            m.wf(),
            crate::idmap::sorted_keys(m.entries()),
            m@ == crate::idmap::entries_map(m.entries()),
            labels(out@).no_duplicates(),
            forall|t: Seq<char>|
                labels(out@).contains(t) <==> exists|j: int|
                    0 <= j < i && (#[trigger] m.entries()[j]).1@ == t,
        decreases m.entries().len() - i,
    {
        let (_k, v) = m.entry(i);
        let ghost before = labels(out@);
        let mut found = false;
        let mut j: usize = 0;
        while j < out.len()
            invariant
                0 <= j <= out@.len(),
                before == labels(out@),
                found ==> before.contains(v@),
                !found ==> forall|x: int| 0 <= x < j ==> out@[x]@ != v@,
            decreases out@.len() - j,
        {
            if !found && out[j] == *v {
                found = true;
                assert(before[j as int] == v@);
            }
            j += 1;
        }
        if !found {
            out.push(v.clone());
            proof {
                assert(labels(out@) =~= before.push(v@));
                assert(!before.contains(v@)) by {
                    if before.contains(v@) {
                        let x = choose|x: int| 0 <= x < before.len() && before[x] == v@;
                        assert(out@[x]@ == v@);
                    }
                }
            }
        }
        proof {
            let now = labels(out@);
            assert forall|t: Seq<char>|
                now.contains(t) <==> exists|j: int| 0 <= j < i + 1 && (#[trigger] m.entries()[j]).1@ == t by {
                if now.contains(t) {
                    let x = choose|x: int| 0 <= x < now.len() && now[x] == t;
                    if x < before.len() {
                        assert(before[x] == t);
                        assert(before.contains(t));
                        let j = choose|j: int| 0 <= j < i && (#[trigger] m.entries()[j]).1@ == t;
                        assert(0 <= j < i + 1 && (#[trigger] m.entries()[j]).1@ == t);
                    } else {
                        assert(m.entries()[i as int].1@ == t);
                    }
                }
                if exists|j: int| 0 <= j < i + 1 && (#[trigger] m.entries()[j]).1@ == t {
                    let j = choose|j: int| 0 <= j < i + 1 && (#[trigger] m.entries()[j]).1@ == t;
                    if j < i {
                        assert(before.contains(t));
                        let x = choose|x: int| 0 <= x < before.len() && before[x] == t;
                        assert(now[x] == t);
                    } else if found {
                        let x = choose|x: int| 0 <= x < before.len() && before[x] == t;
                        assert(now[x] == t);
                    } else {
                        assert(now[before.len() as int] == t);
                    }
                }
            }
        }
        i += 1;
    }
    proof {
        let now = labels(out@);
        assert forall|t: Seq<char>| now.to_set().contains(t) <==> names_view(m@).values().contains(t) by {
            if now.contains(t) {
                let j = choose|j: int| 0 <= j < m.entries().len() && (#[trigger] m.entries()[j]).1@ == t;
                lemma_entry_in_map(m.entries(), j);
                assert(names_view(m@).contains_key(m.entries()[j].0));
            }
            if names_view(m@).values().contains(t) {
                let k = choose|k: u128| names_view(m@).contains_key(k) && names_view(m@)[k] == t;
                let j = choose|j: int| 0 <= j < m.entries().len() && m.entries()[j].0 == k;
                lemma_entry_in_map(m.entries(), j);
            }
        }
        assert(now.to_set() =~= names_view(m@).values());
    }
    out
}

/// A decision: its delegates and options, each with a human-readable
/// label, and each delegate's ballot.
pub struct TopicData {
    pub id: u128,
    pub title: String,
    pub description: String,
    delegates: IdMap<String>,
    policies: IdMap<String>,
    votes: IdMap<Ballot>,
}

impl TopicData {
    /// Each delegate's name.
    pub closed spec fn delegates(&self) -> Map<u128, Seq<char>> {
        names_view(self.delegates@)
    }

    /// Each option's title.
    pub closed spec fn policies(&self) -> Map<u128, Seq<char>> {
        names_view(self.policies@)
    }

    /// Each delegate's ballot.
    pub closed spec fn ballots(&self) -> Map<u128, Map<u128, Weight>> {
        ballots_view(self.votes@)
    }

    pub closed spec fn wf(&self) -> bool {
        &&& self.delegates.wf()
        &&& self.policies.wf()
        &&& ballots_wf(self.votes)
    }

    pub closed spec fn title_text(&self) -> Seq<char> {
        self.title@
    }

    pub closed spec fn description_text(&self) -> Seq<char> {
        self.description@
    }

    pub fn new(title: &str, description: &str) -> (r: Self)
        ensures
            r.wf(),
            r.title_text() == title@,
            r.description_text() == description@,
            r.delegates() == Map::<u128, Seq<char>>::empty(),
            r.policies() == Map::<u128, Seq<char>>::empty(),
            r.ballots() == Map::<u128, Map<u128, Weight>>::empty(),
    {
        let r = Self {
            id: random_id(),
            title: title.to_owned(),
            description: description.to_owned(),
            delegates: IdMap::new(),
            policies: IdMap::new(),
            votes: IdMap::new(),
        };
        assert(r.delegates() =~= Map::<u128, Seq<char>>::empty());
        assert(r.policies() =~= Map::<u128, Seq<char>>::empty());
        assert(r.ballots() =~= Map::<u128, Map<u128, Weight>>::empty());
        r
    }

    /// Registers a delegate under a fresh random identifier, unless a
    /// delegate of that name exists.
    pub fn add_new_delegate(&mut self, nickname: &str) -> (r: Option<u128>)
        requires
            old(self).wf(),
        ensures
            final(self).wf(),
            final(self).policies() == old(self).policies(),
            final(self).ballots() == old(self).ballots(),
            r is None <==> exists|k: u128|
                old(self).delegates().contains_key(k) && old(self).delegates()[k] == nickname@,
            match r {
                None => final(self).delegates() == old(self).delegates(),
                Some(k) => final(self).delegates() == old(self).delegates().insert(k, nickname@),
            },
    {
        match key_of_name(&self.delegates, nickname) {
            Some(k) => {
                assert(old(self).delegates().contains_key(k) && old(self).delegates()[k] == nickname@);
                None
            },
            None => {
                assert(!exists|k: u128|
                    old(self).delegates().contains_key(k) && old(self).delegates()[k] == nickname@);
                let id = random_id();
                self.delegates.insert(id, nickname.to_owned());
                assert(self.delegates() =~= old(self).delegates().insert(id, nickname@));
                Some(id)
            },
        }
    }

    /// Registers a delegate under `id`, unless that identifier is taken.
    pub fn add_delegate(&mut self, id: u128, nickname: &str) -> (r: bool)
        requires
            old(self).wf(),
        ensures
            final(self).wf(),
            final(self).policies() == old(self).policies(),
            final(self).ballots() == old(self).ballots(),
            r == !old(self).delegates().contains_key(id),
            final(self).delegates() == if r {
                old(self).delegates().insert(id, nickname@)
            } else {
                old(self).delegates()
            },
    {
        if self.delegates.contains_key(id) {
            false
        } else {
            self.delegates.insert(id, nickname.to_owned());
            assert(self.delegates() =~= old(self).delegates().insert(id, nickname@));
            true
        }
    }

    /// Registers a delegate under `id`, replacing any earlier name.
    pub fn force_add_delegate(&mut self, id: u128, nickname: &str)
        requires
            old(self).wf(),
        ensures
            final(self).wf(),
            final(self).policies() == old(self).policies(),
            final(self).ballots() == old(self).ballots(),
            final(self).delegates() == old(self).delegates().insert(id, nickname@),
    {
        self.delegates.insert(id, nickname.to_owned());
        assert(self.delegates() =~= old(self).delegates().insert(id, nickname@));
    }

    /// Registers an option under a fresh random identifier, unless an option
    /// of that title exists.
    pub fn add_new_policy(&mut self, title: &str) -> (r: Option<u128>)
        requires
            old(self).wf(),
        ensures
            final(self).wf(),
            final(self).delegates() == old(self).delegates(),
            final(self).ballots() == old(self).ballots(),
            r is None <==> exists|k: u128|
                old(self).policies().contains_key(k) && old(self).policies()[k] == title@,
            match r {
                None => final(self).policies() == old(self).policies(),
                Some(k) => final(self).policies() == old(self).policies().insert(k, title@),
            },
    {
        match key_of_name(&self.policies, title) {
            Some(k) => {
                assert(old(self).policies().contains_key(k) && old(self).policies()[k] == title@);
                None
            },
            None => {
                assert(!exists|k: u128|
                    old(self).policies().contains_key(k) && old(self).policies()[k] == title@);
                let id = random_id();
                self.policies.insert(id, title.to_owned());
                assert(self.policies() =~= old(self).policies().insert(id, title@));
                Some(id)
            },
        }
    }

    /// Registers an option under `id`, replacing any earlier title.
    pub fn force_add_policy(&mut self, id: u128, title: &str)
        requires
            old(self).wf(),
        ensures
            final(self).wf(),
            final(self).delegates() == old(self).delegates(),
            final(self).ballots() == old(self).ballots(),
            final(self).policies() == old(self).policies().insert(id, title@),
    {
        self.policies.insert(id, title.to_owned());
        assert(self.policies() =~= old(self).policies().insert(id, title@));
    }

    /// Each delegate's name, by identifier.
    pub fn delegate_labels(&self) -> (r: &IdMap<String>)
        requires
            self.wf(),
        ensures
            r.wf(),
            names_view(r@) == self.delegates(),
    {
        &self.delegates
    }

    /// Each option's title, by identifier.
    pub fn policy_labels(&self) -> (r: &IdMap<String>)
        requires
            self.wf(),
        ensures
            r.wf(),
            names_view(r@) == self.policies(),
    {
        &self.policies
    }

    /// Replaces the whole ballot of `src`.
    pub fn overwrite_vote_for(&mut self, src: u128, vote: Ballot)
        requires
            old(self).wf(),
            vote.wf(),
        ensures
            final(self).wf(),
            final(self).delegates() == old(self).delegates(),
            final(self).policies() == old(self).policies(),
            final(self).ballots() == old(self).ballots().insert(src, vote@),
    {
        self.votes.insert(src, vote);
        assert(self.ballots() =~= old(self).ballots().insert(src, vote@));
    }

    /// The distinct option titles.
    pub fn policies_values(&self) -> (r: Vec<String>)
        requires
            self.wf(),
        ensures
            labels(r@).no_duplicates(),
            labels(r@).to_set() == self.policies().values(),
    {
        distinct_values(&self.policies)
    }

    /// The distinct delegate names.
    pub fn delegates_values(&self) -> (r: Vec<String>)
        requires
            self.wf(),
        ensures
            labels(r@).no_duplicates(),
            labels(r@).to_set() == self.delegates().values(),
    {
        distinct_values(&self.delegates)
    }

    /// Sets the weight that `src` gives `target`, leaving the rest of the
    /// ballot as it was.
    pub fn cast_vote_to(&mut self, src: u128, target: u128, value: Weight)
        requires
            old(self).wf(),
        ensures
            final(self).wf(),
            final(self).delegates() == old(self).delegates(),
            final(self).policies() == old(self).policies(),
            final(self).ballots() == old(self).ballots().insert(
                src,
                if old(self).ballots().contains_key(src) {
                    old(self).ballots()[src]
                } else {
                    Map::empty()
                }.insert(target, value),
            ),
    {
        let mut ballot = match self.votes.get(src) {
            Some(b) => b.duplicate(),
            None => IdMap::new(),
        };
        ballot.insert(target, value);
        self.votes.insert(src, ballot);
        assert(self.ballots() =~= old(self).ballots().insert(
            src,
            if old(self).ballots().contains_key(src) {
                old(self).ballots()[src]
            } else {
                Map::empty()
            }.insert(target, value),
        ));
    }

    /// The options' identifiers.
    pub fn policy_ids(&self) -> (r: IdMap<()>)
        requires
            self.wf(),
        ensures
            r.wf(),
            r@.dom() == self.policies().dom(),
    {
        key_set(&self.policies)
    }

    /// The delegates' identifiers.
    pub fn delegate_ids(&self) -> (r: IdMap<()>)
        requires
            self.wf(),
        ensures
            r.wf(),
            r@.dom() == self.delegates().dom(),
    {
        key_set(&self.delegates)
    }

    /// A copy of every ballot.
    pub fn votes(&self) -> (r: IdMap<Ballot>)
        requires
            self.wf(),
        ensures
            ballots_wf(r),
            ballots_view(r@) == self.ballots(),
    {
        copy_ballots(&self.votes)
    }

    /// A small decision to try the methods on: delegates alice, bob and
    /// charlie, options apples, bananas and oranges, alice voting for apples
    /// and bob and charlie for bananas, each with weight 1.0.
    pub fn dummy() -> (r: Self)
        ensures
            r.wf(),
            r.delegates().values().subset_of(set!["alice"@, "bob"@, "charlie"@]),
            r.policies().values().subset_of(set!["apples"@, "bananas"@, "oranges"@]),
            r.delegates().values().contains("charlie"@),
            r.policies().values().contains("oranges"@),
    {
        proof {
            reveal_strlit("alice");
            reveal_strlit("bob");
            reveal_strlit("charlie");
            reveal_strlit("apples");
            reveal_strlit("bananas");
            reveal_strlit("oranges");
            assert("alice"@.len() == 5 && "bob"@.len() == 3 && "charlie"@.len() == 7);
            assert("apples"@.len() == 6 && "bananas"@.len() == 7);
            assert("bananas"@[0] != "oranges"@[0]);
            assert("apples"@.len() != "oranges"@.len());
        }
        let mut topic = TopicData::new("dummy", "which fruit");
        assert(topic.delegates().values() =~= Set::<Seq<char>>::empty());
        assert(topic.policies().values() =~= Set::<Seq<char>>::empty());
        let ghost m_alice = topic.delegates();
        proof {
            lemma_absent_name(m_alice, Set::<Seq<char>>::empty(), "alice"@);
        }
        let alice = topic.add_new_delegate("alice").unwrap();
        proof {
            lemma_insert_values(m_alice, alice, "alice"@);
            assert(Set::<Seq<char>>::empty().insert("alice"@) =~= set!["alice"@]);
        }
        let ghost m_bob = topic.delegates();
        proof {
            lemma_absent_name(m_bob, set!["alice"@], "bob"@);
        }
        let bob = topic.add_new_delegate("bob").unwrap();
        proof {
            lemma_insert_values(m_bob, bob, "bob"@);
            assert(set!["alice"@].insert("bob"@) =~= set!["alice"@, "bob"@]);
        }
        let ghost m_charlie = topic.delegates();
        proof {
            lemma_absent_name(m_charlie, set!["alice"@, "bob"@], "charlie"@);
        }
        let charlie = topic.add_new_delegate("charlie").unwrap();
        proof {
            lemma_insert_values(m_charlie, charlie, "charlie"@);
            assert(set!["alice"@, "bob"@].insert("charlie"@) =~= set!["alice"@, "bob"@, "charlie"@]);
        }
        let ghost m_apples = topic.policies();
        proof {
            lemma_absent_name(m_apples, Set::<Seq<char>>::empty(), "apples"@);
        }
        let apples = topic.add_new_policy("apples").unwrap();
        proof {
            lemma_insert_values(m_apples, apples, "apples"@);
            assert(Set::<Seq<char>>::empty().insert("apples"@) =~= set!["apples"@]);
        }
        let ghost m_bananas = topic.policies();
        proof {
            lemma_absent_name(m_bananas, set!["apples"@], "bananas"@);
        }
        let bananas = topic.add_new_policy("bananas").unwrap();
        proof {
            lemma_insert_values(m_bananas, bananas, "bananas"@);
            assert(set!["apples"@].insert("bananas"@) =~= set!["apples"@, "bananas"@]);
        }
        let ghost m_oranges = topic.policies();
        proof {
            lemma_absent_name(m_oranges, set!["apples"@, "bananas"@], "oranges"@);
        }
        let oranges = topic.add_new_policy("oranges").unwrap();
        proof {
            lemma_insert_values(m_oranges, oranges, "oranges"@);
            assert(set!["apples"@, "bananas"@].insert("oranges"@) =~= set!["apples"@, "bananas"@, "oranges"@]);
        }
        let one = Weight { bits: 0x3FF0_0000_0000_0000 };
        topic.cast_vote_to(alice, apples, one);
        topic.cast_vote_to(bob, bananas, one);
        topic.cast_vote_to(charlie, bananas, one);
        topic
    }

    /// The identifier of the first delegate, in identifier order, named `name`.
    pub fn get_id_by_name(&self, name: &str) -> (r: Option<u128>)
        requires
            self.wf(),
        ensures
            match r {
                Some(k) => self.delegates().contains_key(k) && self.delegates()[k] == name@,
                None => forall|k: u128|
                    self.delegates().contains_key(k) ==> self.delegates()[k] != name@,
            },
    {
        key_of_name(&self.delegates, name)
    }

    /// The identifier of the first option, in identifier order, titled `title`.
    pub fn get_id_by_title(&self, title: &str) -> (r: Option<u128>)
        requires
            self.wf(),
        ensures
            match r {
                Some(k) => self.policies().contains_key(k) && self.policies()[k] == title@,
                None => forall|k: u128|
                    self.policies().contains_key(k) ==> self.policies()[k] != title@,
            },
    {
        key_of_name(&self.policies, title)
    }
}

proof fn lemma_absent_name(m: Map<u128, Seq<char>>, allowed: Set<Seq<char>>, name: Seq<char>)
    requires
        m.values().subset_of(allowed),
        !allowed.contains(name),
    ensures
        !exists|k: u128| m.contains_key(k) && m[k] == name,
{
    assert forall|k: u128| m.contains_key(k) implies m[k] != name by {
        assert(m.values().contains(m[k]));
    }
}

proof fn lemma_insert_values(m: Map<u128, Seq<char>>, k: u128, v: Seq<char>)
    ensures
        m.insert(k, v).values().subset_of(m.values().insert(v)),
        m.insert(k, v).values().contains(v),
{
    assert forall|x: Seq<char>| m.insert(k, v).values().contains(x) implies m.values().insert(v).contains(x) by {
        let j = choose|j: u128| m.insert(k, v).contains_key(j) && m.insert(k, v)[j] == x;
        if j != k {
            assert(m.contains_key(j) && m[j] == x);
        }
    }
    assert(m.insert(k, v).contains_key(k));
}

/// The keys of `m`.
fn key_set(m: &IdMap<String>) -> (r: IdMap<()>)
    requires
        m.wf(),
    ensures
        r.wf(),
        r@.dom() == m@.dom(),
{
    proof {
        m.lemma_view();
    }
    let ghost es = m.entries();
    let mut r: IdMap<()> = IdMap::new();
    let mut i: usize = 0;
    proof {
        if es.len() > 0 {
            lemma_prefix_step(es, 0);
        } else {
            assert(es.take(0) =~= es);
        }
    }
    while i < m.len()
        invariant
            0 <= i <= es.len(),
            es == m.entries(),
            crate::idmap::sorted_keys(es),
            m@ == crate::idmap::entries_map(es),
            r.wf(),
            r@.dom() == crate::idmap::entries_map(es.take(i as int)).dom(),
        decreases es.len() - i,
    {
        let (k, _v) = m.entry(i);
        proof {
            lemma_prefix_step(es, i as int);
        }
        r.insert(k, ());
        i += 1;
    }
    proof {
        assert(es.take(es.len() as int) =~= es);
    }
    r
}

/// A copy of every ballot of `votes`.
pub fn copy_ballots(votes: &IdMap<Ballot>) -> (r: IdMap<Ballot>)
    requires
        ballots_wf(*votes),
    ensures
        ballots_wf(r),
        ballots_view(r@) == ballots_view(votes@),
        r@.dom() == votes@.dom(),
{
    proof {
        votes.lemma_view();
    }
    let ghost es = votes.entries();
    let mut r: IdMap<Ballot> = IdMap::new();
    let mut i: usize = 0;
    proof {
        if es.len() > 0 {
            lemma_prefix_step(es, 0);
        } else {
            assert(es.take(0) =~= es);
        }
    }
    while i < votes.len()
        invariant
            0 <= i <= es.len(),
            es == votes.entries(),
            crate::idmap::sorted_keys(es),
            votes@ == crate::idmap::entries_map(es),
            ballots_wf(*votes),
            ballots_wf(r),
            r@.dom() == crate::idmap::entries_map(es.take(i as int)).dom(),
            forall|k: u128| #[trigger] r@.contains_key(k) ==> r@[k]@ == votes@[k]@,
        decreases es.len() - i,
    {
        let (k, b) = votes.entry(i);
        proof {
            lemma_prefix_step(es, i as int);
            lemma_entry_in_map(es, i as int);
        }
        let c = b.duplicate();
        r.insert(k, c);
        i += 1;
    }
    proof {
        assert(es.take(es.len() as int) =~= es);
        assert(ballots_view(r@) =~= ballots_view(votes@));
    }
    r
}

} // verus!
