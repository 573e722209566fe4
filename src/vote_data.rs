use vstd::prelude::*;
use sha2::Digest;
use crate::idmap::{IdMap, entries_map, sorted_keys, lemma_prefix_step, lemma_entry_in_map, lemma_sorted_entries_unique};
use crate::topic::{Ballot, Weight, TopicData, ballots_view, ballots_wf, copy_ballots};

verus! {

/// The SHA-256 digest of a byte string.
pub uninterp spec fn sha256_of(data: Seq<u8>) -> Seq<u8>;

/// The Base58 text of a byte string.
pub uninterp spec fn base58_of(data: Seq<u8>) -> Seq<char>;

/// Relies on sha2's Sha256::digest: the SHA-256 digest of the bytes, which
/// is 32 bytes long.
#[verifier::external_body]
fn sha256(data: &Vec<u8>) -> (r: Vec<u8>)
    ensures
        r@ == sha256_of(data@),
        r@.len() == 32,
{
    sha2::Sha256::digest(data.as_slice()).to_vec()
}

/// Relies on bs58::encode(..).into_string: the Base58 text of the bytes.
#[verifier::external_body]
fn base58(data: &Vec<u8>) -> (r: String)
    ensures
        r@ == base58_of(data@),
{
    bs58::encode(data.as_slice()).into_string()
}

/// The `n` lowest bytes of `x`, most significant first.
pub open spec fn be_bytes(x: nat, n: nat) -> Seq<u8>
    decreases n,
{
    if n == 0 {
        Seq::empty()
    } else {
        be_bytes(x / 256, (n - 1) as nat).push((x % 256) as u8)
    }
}

/// The keys of ordered entries, 16 bytes each.
pub open spec fn keys_bytes<V>(s: Seq<(u128, V)>) -> Seq<u8>
    decreases s.len(),
{
    if s.len() == 0 {
        Seq::empty()
    } else {
        keys_bytes(s.drop_last()) + be_bytes(s.last().0 as nat, 16)
    }
}

/// Each target of a ballot, 16 bytes, followed by its weight, 8 bytes.
pub open spec fn ballot_bytes(s: Seq<(u128, Weight)>) -> Seq<u8>
    decreases s.len(),
{
    if s.len() == 0 {
        Seq::empty()
    } else {
        ballot_bytes(s.drop_last()) + be_bytes(s.last().0 as nat, 16) + be_bytes(
            s.last().1.bits as nat,
            8,
        )
    }
}

/// Each voter, 16 bytes, followed by the bytes of their ballot.
pub open spec fn votes_bytes(s: Seq<(u128, Seq<(u128, Weight)>)>) -> Seq<u8>
    decreases s.len(),
{
    if s.len() == 0 {
        Seq::empty()
    } else {
        votes_bytes(s.drop_last()) + be_bytes(s.last().0 as nat, 16) + ballot_bytes(s.last().1)
    }
}

/// Ordered ballots, each as its ordered entries.
pub open spec fn vote_entries(s: Seq<(u128, Ballot)>) -> Seq<(u128, Seq<(u128, Weight)>)> {
    s.map_values(|e: (u128, Ballot)| (e.0, e.1.entries()))
}

fn be_bytes_of(x: u128, n: usize) -> (r: Vec<u8>)
    ensures
        r@ == be_bytes(x as nat, n as nat),
    decreases n,
{
    if n == 0 {
        Vec::new()
    } else {
        let mut r = be_bytes_of(x / 256, n - 1);
        r.push((x % 256) as u8);
        r
    }
}

fn push_be(out: &mut Vec<u8>, x: u128, n: usize)
    ensures
        final(out)@ == old(out)@ + be_bytes(x as nat, n as nat),
{
    let mut b = be_bytes_of(x, n);
    out.append(&mut b);
}

fn keys_bytes_of<V>(m: &IdMap<V>) -> (r: Vec<u8>)
    ensures
        r@ == keys_bytes(m.entries()),
{
    let ghost es = m.entries();
    let mut out: Vec<u8> = Vec::new();
    let mut i: usize = 0;
    assert(es.take(0) =~= Seq::<(u128, V)>::empty());
    while i < m.len()
        invariant
            0 <= i <= es.len(),
            es == m.entries(),
            out@ == keys_bytes(es.take(i as int)),
        decreases es.len() - i,
    {
        let (k, _v) = m.entry(i);
        assert(es.take(i + 1).drop_last() =~= es.take(i as int));
        push_be(&mut out, k, 16);
        i += 1;
    }
    assert(es.take(es.len() as int) =~= es);
    out
}

fn ballot_bytes_of(b: &Ballot, out: &mut Vec<u8>)
    ensures
        final(out)@ == old(out)@ + ballot_bytes(b.entries()),
{
    let ghost es = b.entries();
    let ghost start = out@;
    let mut i: usize = 0;
    assert(es.take(0) =~= Seq::<(u128, Weight)>::empty());
    assert(start + ballot_bytes(es.take(0)) =~= start);
    while i < b.len()
        invariant
            0 <= i <= es.len(),
            es == b.entries(),
            out@ == start + ballot_bytes(es.take(i as int)),
        decreases es.len() - i,
    {
        let (k, w) = b.entry(i);
        assert(es.take(i + 1).drop_last() =~= es.take(i as int));
        push_be(out, k, 16);
        push_be(out, w.bits as u128, 8);
        assert(out@ =~= start + ballot_bytes(es.take(i + 1)));
        i += 1;
    }
    assert(es.take(es.len() as int) =~= es);
}

fn votes_bytes_of(m: &IdMap<Ballot>) -> (r: Vec<u8>)
    ensures
        r@ == votes_bytes(vote_entries(m.entries())),
{
    let ghost es = m.entries();
    let mut out: Vec<u8> = Vec::new();
    let mut i: usize = 0;
    assert(vote_entries(es).take(0) =~= Seq::<(u128, Seq<(u128, Weight)>)>::empty());
    while i < m.len()
        invariant
            0 <= i <= es.len(),
            es == m.entries(),
            out@ == votes_bytes(vote_entries(es).take(i as int)),
        decreases es.len() - i,
    {
        let (k, b) = m.entry(i);
        assert(vote_entries(es).take(i + 1).drop_last() =~= vote_entries(es).take(i as int));
        assert(vote_entries(es).take(i + 1).last() == (k, b.entries()));
        push_be(&mut out, k, 16);
        ballot_bytes_of(b, &mut out);
        assert(out@ =~= votes_bytes(vote_entries(es).take(i + 1)));
        i += 1;
    }
    assert(vote_entries(es).take(es.len() as int) =~= vote_entries(es));
    out
}

/// The part of a decision that aggregation reads: the delegates, the
/// options and the ballots, without labels.
pub struct VoteData {
    delegates: IdMap<()>,
    policies: IdMap<()>,
    votes: IdMap<Ballot>,
}

impl View for VoteData {
    type V = (Set<u128>, Set<u128>, Map<u128, Map<u128, Weight>>);

    closed spec fn view(&self) -> Self::V {
        (self.delegates@.dom(), self.policies@.dom(), ballots_view(self.votes@))
    }
}

impl VoteData {
    pub closed spec fn wf(&self) -> bool {
        &&& self.delegates.wf()
        &&& self.policies.wf()
        &&& ballots_wf(self.votes)
    }

    /// The delegates, as ordered entries.
    pub closed spec fn delegate_entries(&self) -> Seq<(u128, ())> {
        self.delegates.entries()
    }

    /// The options, as ordered entries.
    pub closed spec fn policy_entries(&self) -> Seq<(u128, ())> {
        self.policies.entries()
    }

    /// The ballots, as ordered entries.
    pub closed spec fn ballot_entries(&self) -> Seq<(u128, Ballot)> {
        self.votes.entries()
    }

    /// The bytes whose digest identifies this view: the digests of the
    /// delegates, of the options and of the ballots, in increasing
    /// identifier order.
    pub open spec fn hash_input(&self) -> Seq<u8> {
        sha256_of(keys_bytes(self.delegate_entries())) + sha256_of(keys_bytes(self.policy_entries()))
            + sha256_of(votes_bytes(vote_entries(self.ballot_entries())))
    }

    /// The view with these delegates, options and ballots.
    pub fn new(delegates: IdMap<()>, policies: IdMap<()>, votes: IdMap<Ballot>) -> (r: VoteData)
        requires
            delegates.wf(),
            policies.wf(),
            ballots_wf(votes),
        ensures
            r.wf(),
            r@.0 == delegates@.dom(),
            r@.1 == policies@.dom(),
            r@.2 == ballots_view(votes@),
    {
        VoteData { delegates, policies, votes }
    }

    /// The delegates' identifiers.
    pub fn delegates(&self) -> (r: &IdMap<()>)
        requires
            self.wf(),
        ensures
            r.wf(),
            r@.dom() == self@.0,
    {
        &self.delegates
    }

    /// The options' identifiers.
    pub fn policies(&self) -> (r: &IdMap<()>)
        requires
            self.wf(),
        ensures
            r.wf(),
            r@.dom() == self@.1,
    {
        &self.policies
    }

    /// Each delegate's ballot.
    pub fn votes(&self) -> (r: &IdMap<Ballot>)
        requires
            self.wf(),
        ensures
            ballots_wf(*r),
            ballots_view(r@) == self@.2,
    {
        &self.votes
    }

    /// The labels of a decision stripped away.
    pub fn from_topic(topic: &TopicData) -> (r: VoteData)
        requires
            topic.wf(),
        ensures
            r.wf(),
            r@.0 == topic.delegates().dom(),
            r@.1 == topic.policies().dom(),
            r@.2 == topic.ballots(),
    {
        let delegates = topic.delegate_ids();
        let policies = topic.policy_ids();
        let votes = topic.votes();
        VoteData { delegates, policies, votes }
    }

    /// Each delegate's ballot without its votes for delegates.
    pub fn only_policy_voting(&self) -> (r: IdMap<Ballot>)
        requires
            self.wf(),
        ensures
            ballots_wf(r),
            r@.dom() == self@.2.dom(),
            forall|k: u128| #[trigger] r@.contains_key(k) ==> r@[k]@ == self@.2[k].remove_keys(self@.0),
    {
        filter_ballots(&self.votes, &self.delegates)
    }

    /// Each delegate's ballot without its votes for options.
    pub fn only_delegate_voting(&self) -> (r: IdMap<Ballot>)
        requires
            self.wf(),
        ensures
            ballots_wf(r),
            r@.dom() == self@.2.dom(),
            forall|k: u128| #[trigger] r@.contains_key(k) ==> r@[k]@ == self@.2[k].remove_keys(self@.1),
    {
        filter_ballots(&self.votes, &self.policies)
    }

    /// The three byte strings that `hash` digests: every delegate, every
    /// option, and every voter with each target and weight of their ballot.
    /// Identifiers take 16 bytes and weights 8, most significant first.
    pub fn digest_inputs(&self) -> (r: (Vec<u8>, Vec<u8>, Vec<u8>))
        ensures
            r.0@ == keys_bytes(self.delegate_entries()),
            r.1@ == keys_bytes(self.policy_entries()),
            r.2@ == votes_bytes(vote_entries(self.ballot_entries())),
    {
        (keys_bytes_of(&self.delegates), keys_bytes_of(&self.policies), votes_bytes_of(&self.votes))
    }

    /// The SHA-256 digest that identifies this view.
    pub fn hash(&self) -> (r: Vec<u8>)
        ensures
            r@ == sha256_of(self.hash_input()),
    {
        let (d_bytes, p_bytes, v_bytes) = self.digest_inputs();
        let mut all = sha256(&d_bytes);
        let mut p = sha256(&p_bytes);
        let mut v = sha256(&v_bytes);
        all.append(&mut p);
        all.append(&mut v);
        sha256(&all)
    }

    /// The same digest as `hash`.
    pub fn hash_sync(&self) -> (r: Vec<u8>)
        ensures
            r@ == sha256_of(self.hash_input()),
    {
        self.hash()
    }

    /// The identifier of a request about this view: its digest in Base58.
    pub fn request_id(&self) -> (r: String)
        ensures
            r@ == base58_of(sha256_of(self.hash_input())),
    {
        base58(&self.hash())
    }
}

/// Ballots of `votes` with every target in `drop` removed.
fn filter_ballots(votes: &IdMap<Ballot>, drop: &IdMap<()>) -> (r: IdMap<Ballot>)
    requires
        ballots_wf(*votes),
        drop.wf(),
    ensures
        ballots_wf(r),
        r@.dom() == votes@.dom(),
        forall|k: u128| #[trigger] r@.contains_key(k) ==> r@[k]@ == votes@[k]@.remove_keys(drop@.dom()),
{
    proof {
        votes.lemma_view();
    }
    let ghost es = votes.entries();
    let mut r: IdMap<Ballot> = IdMap::new();
    let mut i: usize = 0;
    proof {
        if es.len() > 0 {
            lemma_prefix_step(es, 0);
        } else {
            assert(es.take(0) =~= es);
        }
    }
    while i < votes.len()
        invariant
            0 <= i <= es.len(),
            es == votes.entries(),
            sorted_keys(es),
            votes@ == entries_map(es),
            ballots_wf(*votes),
            drop.wf(),
            ballots_wf(r),
            r@.dom() == entries_map(es.take(i as int)).dom(),
            forall|k: u128| #[trigger] r@.contains_key(k) ==> r@[k]@ == votes@[k]@.remove_keys(drop@.dom()),
        decreases es.len() - i,
    {
        let (k, b) = votes.entry(i);
        proof {
            lemma_prefix_step(es, i as int);
            lemma_entry_in_map(es, i as int);
        }
        let kept = filter_ballot(b, drop);
        r.insert(k, kept);
        i += 1;
    }
    proof {
        assert(es.take(es.len() as int) =~= es);
        assert(r@.dom() =~= votes@.dom());
    }
    r
}

/// `b` with every target in `drop` removed.
fn filter_ballot(b: &Ballot, drop: &IdMap<()>) -> (r: Ballot)
    requires
        b.wf(),
        drop.wf(),
    ensures
        r.wf(),
        r@ == b@.remove_keys(drop@.dom()),
{
    proof {
        b.lemma_view();
    }
    let ghost es = b.entries();
    let mut r: Ballot = IdMap::new();
    let mut i: usize = 0;
    proof {
        if es.len() > 0 {
            lemma_prefix_step(es, 0);
        } else {
            assert(es.take(0) =~= es);
        }
        assert(r@ =~= entries_map(es.take(0)).remove_keys(drop@.dom()));
    }
    while i < b.len()
        invariant
            0 <= i <= es.len(),
            es == b.entries(),
            sorted_keys(es),
            b@ == entries_map(es),
            drop.wf(),
            r.wf(),
            r@ == entries_map(es.take(i as int)).remove_keys(drop@.dom()),
        decreases es.len() - i,
    {
        let (t, w) = b.entry(i);
        proof {
            lemma_prefix_step(es, i as int);
        }
        let ghost before = entries_map(es.take(i as int));
        if !drop.contains_key(t) {
            r.insert(t, *w);
            assert(r@ =~= before.insert(t, *w).remove_keys(drop@.dom()));
        } else {
            assert(r@ =~= before.insert(t, *w).remove_keys(drop@.dom()));
        }
        i += 1;
    }
    proof {
        assert(es.take(es.len() as int) =~= es);
    }
    r
}

proof fn lemma_same_keys<V>(a: &IdMap<V>, b: &IdMap<V>)
    requires
        a.wf(),
        b.wf(),
        a@ == b@,
    ensures
        a.entries() == b.entries(),
{
    a.lemma_view();
    b.lemma_view();
    lemma_sorted_entries_unique(a.entries(), b.entries());
}

/// Two views with the same delegates, options and ballots are hashed from
/// the same bytes, whatever order their entries were added in.
pub proof fn lemma_hash_canonical(a: &VoteData, b: &VoteData)
    requires
        a.wf(),
        b.wf(),
        a@ == b@,
    ensures
        a.hash_input() == b.hash_input(),
{
    assert(a.delegates@ =~= b.delegates@);
    assert(a.policies@ =~= b.policies@);
    lemma_same_keys(&a.delegates, &b.delegates);
    lemma_same_keys(&a.policies, &b.policies);
    a.votes.lemma_view();
    b.votes.lemma_view();
    let ea = a.votes.entries();
    let eb = b.votes.entries();
    let va = vote_entries(ea);
    let vb = vote_entries(eb);
    assert(ballots_view(a.votes@) == ballots_view(b.votes@));
    assert(a.votes@.dom() =~= b.votes@.dom()) by {
        assert forall|k: u128| a.votes@.contains_key(k) <==> b.votes@.contains_key(k) by {
            assert(ballots_view(a.votes@).contains_key(k) == a.votes@.contains_key(k));
            assert(ballots_view(b.votes@).contains_key(k) == b.votes@.contains_key(k));
        }
    }
    assert forall|i: int, j: int| 0 <= i < j < va.len() implies va[i].0 < va[j].0 by {
        assert(ea[i].0 < ea[j].0);
    }
    assert forall|i: int, j: int| 0 <= i < j < vb.len() implies vb[i].0 < vb[j].0 by {
        assert(eb[i].0 < eb[j].0);
    }
    assert forall|k: u128| #[trigger] entries_map(va).contains_key(k) <==> entries_map(vb).contains_key(k) by {
        if entries_map(va).contains_key(k) {
            let i = choose|i: int| 0 <= i < va.len() && va[i].0 == k;
            lemma_entry_in_map(ea, i);
            assert(b.votes@.contains_key(k));
            let j = choose|j: int| 0 <= j < eb.len() && eb[j].0 == k;
            assert(vb[j].0 == k);
        }
        if entries_map(vb).contains_key(k) {
            let i = choose|i: int| 0 <= i < vb.len() && vb[i].0 == k;
            lemma_entry_in_map(eb, i);
            assert(a.votes@.contains_key(k));
            let j = choose|j: int| 0 <= j < ea.len() && ea[j].0 == k;
            assert(va[j].0 == k);
        }
    }
    assert forall|k: u128| #[trigger] entries_map(va).contains_key(k) implies entries_map(va)[k]
        == entries_map(vb)[k] by {
        let i = choose|i: int| 0 <= i < va.len() && va[i].0 == k;
        let j = choose|j: int| 0 <= j < vb.len() && vb[j].0 == k;
        lemma_entry_in_map(va, i);
        lemma_entry_in_map(vb, j);
        lemma_entry_in_map(ea, i);
        lemma_entry_in_map(eb, j);
        assert(ballots_view(a.votes@)[k] == a.votes@[k]@);
        assert(ballots_view(b.votes@)[k] == b.votes@[k]@);
        lemma_same_keys(&a.votes@[k], &b.votes@[k]);
    }
    assert(entries_map(va) =~= entries_map(vb));
    lemma_sorted_entries_unique(va, vb);
}

} // verus!
