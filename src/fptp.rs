use vstd::prelude::*;
use crate::text::texts;
use crate::tally::{count, is_top_set, most_frequent};

verus! {

/// Plurality voting: each voter names a single option.
pub struct FirstPastThePostVoting<'a> {
    votes: Vec<&'a str>,
}

impl<'a> View for FirstPastThePostVoting<'a> {
    type V = Seq<Seq<char>>;

    closed spec fn view(&self) -> Seq<Seq<char>> {
        texts(self.votes@)
    }
}

impl<'a> FirstPastThePostVoting<'a> {
    pub fn new(votes: Vec<&'a str>) -> (r: Self)
        ensures
            r@ == texts(votes@),
    {
        Self { votes }
    }

    /// Every option tied for the most votes; empty only when no vote was cast.
    pub fn calculate(&self) -> (r: Vec<&'a str>)
        ensures
            is_top_set(self@, texts(r@)),
            r@.len() == 0 <==> self@.len() == 0,
    {
        most_frequent(&self.votes)
    }
}

/// When every option was named equally often, every option named is a winner.
pub proof fn lemma_pure_tie(votes: Seq<Seq<char>>, winners: Seq<Seq<char>>)
    requires
        forall|p: Seq<char>, q: Seq<char>|
            votes.contains(p) && votes.contains(q) ==> count(votes, p) == count(votes, q),
        is_top_set(votes, winners),
    ensures
        winners.to_set() == votes.to_set(),
{
    assert(winners.to_set() =~= votes.to_set());
}

} // verus!
