//! Election and allocation outcomes from ballots: plurality, Borda count,
//! ranked-choice and approval voting, the ballot model, and the layout of
//! the transition matrix that liquid democracy resolves.

pub mod text;
pub mod tally;
pub mod fptp;
pub mod approval;
pub mod rcv;
pub mod borda;
pub mod idmap;
pub mod topic;
pub mod vote_data;
pub mod liquid;
pub mod fanout;
