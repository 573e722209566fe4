use std::collections::BTreeSet;
use vote::approval::ApprovalVoting;
use vote::rcv::RankChoiceVoting;

fn as_set<'a>(v: Vec<&'a str>) -> BTreeSet<&'a str> {
    v.into_iter().collect()
}

#[test]
fn approval_simple() {
    let a = vec!["dog"];
    let b = vec!["cat"];
    let c = vec!["dog"];

    let voters: Vec<Vec<&str>> = vec![a, b, c];
    let rcv = ApprovalVoting::new(voters);
    assert_eq!(rcv.calculate(), Some(vec!["dog"]))
}

#[test]
fn approval_recurse() {
    let a = vec!["dog"];
    let b = vec!["cat"];
    let c = vec!["bat", "dog"];
    let d = vec!["dog"];

    let voters: Vec<Vec<&str>> = vec![a, b, c, d];
    let rcv = ApprovalVoting::new(voters);
    assert_eq!(rcv.calculate(), Some(vec!["dog"]))
}

#[test]
fn approval_no_majority() {
    let a = vec!["dog", "bat"];
    let b = vec!["cat"];
    let c = vec!["bat"];

    let voters: Vec<Vec<&str>> = vec![a, b, c];
    let rcv = ApprovalVoting::new(voters);
    assert_eq!(rcv.calculate(), Some(vec!["bat"]))
}

#[test]
fn approval_second_choice_wins() {
    let a = vec!["rat", "dog"];
    let b = vec!["cat", "dog"];
    let c = vec!["bat"];

    let voters: Vec<Vec<&str>> = vec![a, b, c];
    let rcv = ApprovalVoting::new(voters);
    assert_eq!(rcv.calculate(), Some(vec!["dog"]))
}

#[test]
fn approval_ignore() {
    let a = vec!["cat", "dog"];
    let b = vec!["bat"];
    let c = vec!["dog"];

    let voters: Vec<Vec<&str>> = vec![a, b, c];
    let mut rcv = ApprovalVoting::new(voters);
    rcv.ignore("cat");
    assert_eq!(rcv.calculate(), Some(vec!["dog"]));
}

#[test]
fn approval_iterator() {
    let a = vec!["cat", "dog"];
    let b = vec!["cat"];
    let c = vec!["dog"];

    let voters: Vec<Vec<&str>> = vec![a, b, c];
    let mut rcv_iter = ApprovalVoting::new(voters);

    let set: BTreeSet<&str> = ["dog", "cat"].iter().cloned().collect();
    let result: BTreeSet<&str> = rcv_iter.next().unwrap().iter().cloned().collect();

    assert_eq!(set, result);
    assert_eq!(rcv_iter.next(), None);
}

#[test]
fn approval_ignoring_leader_promotes_runner_up() {
    let voters: Vec<Vec<&str>> = vec![vec!["A", "B"], vec!["A"], vec!["C"]];
    let mut approval = ApprovalVoting::new(voters);
    assert_eq!(approval.calculate(), Some(vec!["A"]));
    approval.ignore("A");
    let second = approval.calculate().unwrap();
    assert_eq!(as_set(second), as_set(vec!["B", "C"]));

    let voters: Vec<Vec<&str>> = vec![vec!["A", "B"], vec!["A", "B"], vec!["A"], vec!["C"]];
    let mut approval = ApprovalVoting::new(voters);
    assert_eq!(approval.calculate(), Some(vec!["A"]));
    approval.ignore("A");
    assert_eq!(approval.calculate(), Some(vec!["B"]));
}

#[test]
fn approval_counts_every_approval() {
    let voters: Vec<Vec<&str>> = vec![vec!["x", "y"], vec!["y"], vec!["z", "x"], vec!["x"]];
    let approval = ApprovalVoting::new(voters);
    assert_eq!(approval.calculate(), Some(vec!["x"]));
}

#[test]
fn approval_without_votes_has_no_winner() {
    let voters: Vec<Vec<&str>> = vec![vec![], vec![]];
    let approval = ApprovalVoting::new(voters);
    assert_eq!(approval.calculate(), None);
}

#[test]
fn rcv_simple() {
    let a = vec!["dog"];
    let b = vec!["cat"];
    let c = vec!["dog"];

    let voters: Vec<Vec<&str>> = vec![a, b, c];
    let rcv = RankChoiceVoting::new(voters);
    assert_eq!(rcv.calculate(), Some(vec!["dog"]))
}

#[test]
fn rcv_recurse() {
    let a = vec!["dog"];
    let b = vec!["cat"];
    let c = vec!["bat", "dog"];
    let d = vec!["dog"];

    let voters: Vec<Vec<&str>> = vec![a, b, c, d];
    let rcv = RankChoiceVoting::new(voters);
    assert_eq!(rcv.calculate(), Some(vec!["dog"]))
}

#[test]
fn rcv_no_majority() {
    let a = vec!["dog", "bat"];
    let b = vec!["cat"];
    let c = vec!["bat"];

    let voters: Vec<Vec<&str>> = vec![a, b, c];
    let rcv = RankChoiceVoting::new(voters);
    assert_eq!(rcv.calculate(), None)
}

#[test]
fn rcv_second_choice_wins() {
    let a = vec!["rat", "dog"];
    let b = vec!["cat", "dog"];
    let c = vec!["bat"];

    let voters: Vec<Vec<&str>> = vec![a, b, c];
    let rcv = RankChoiceVoting::new(voters);
    assert_eq!(rcv.calculate(), Some(vec!["dog"]))
}

#[test]
fn second_choice_no_majority() {
    let a = vec!["rat", "dog"];
    let b = vec!["cat"];
    let c = vec!["bat"];

    let voters: Vec<Vec<&str>> = vec![a, b, c];
    let rcv = RankChoiceVoting::new(voters);
    assert_eq!(rcv.calculate(), None)
}

#[test]
fn rcv_ignore() {
    let a = vec!["cat", "dog"];
    let b = vec!["bat"];
    let c = vec!["dog"];

    let voters: Vec<Vec<&str>> = vec![a, b, c];
    let mut rcv = RankChoiceVoting::new(voters);
    rcv.ignore("cat");
    assert_eq!(rcv.calculate(), Some(vec!["dog"]))
}

#[test]
fn double_round() {
    let a = vec!["cat", "dog"];
    let b = vec!["cat"];
    let c = vec!["dog"];

    let voters: Vec<Vec<&str>> = vec![a, b, c];
    let mut rcv = RankChoiceVoting::new(voters);
    let first = rcv.calculate();
    assert_eq!(first, Some(vec!["cat"]));
    rcv.ignore("cat");
    assert_eq!(rcv.calculate(), Some(vec!["dog"]));
}

#[test]
fn rcv_iterator() {
    let a = vec!["cat", "dog"];
    let b = vec!["cat"];
    let c = vec!["dog"];

    let voters: Vec<Vec<&str>> = vec![a, b, c];
    let mut rcv_iter = RankChoiceVoting::new(voters);

    assert_eq!(rcv_iter.next(), Some(vec!["cat"]));
    assert_eq!(rcv_iter.next(), Some(vec!["dog"]));
}

#[test]
fn rcv_stops_once_every_option_is_ignored() {
    let voters: Vec<Vec<&str>> = vec![vec!["cat", "dog"], vec!["cat"], vec!["dog"]];
    let mut rcv = RankChoiceVoting::new(voters);
    assert_eq!(rcv.next(), Some(vec!["cat"]));
    assert_eq!(rcv.next(), Some(vec!["dog"]));
    assert_eq!(rcv.next(), None);
    assert_eq!(rcv.next(), None);
}

#[test]
fn rcv_first_round_majority_is_sole_winner() {
    let voters: Vec<Vec<&str>> = vec![
        vec!["a", "b"],
        vec!["a", "c"],
        vec!["a"],
        vec!["b", "a"],
        vec!["c", "b"],
    ];
    let rcv = RankChoiceVoting::new(voters);
    assert_eq!(rcv.calculate(), Some(vec!["a"]));
}

#[test]
fn rcv_three_way_split_has_no_winner() {
    let voters: Vec<Vec<&str>> = vec![vec!["a"], vec!["b"], vec!["c"]];
    let rcv = RankChoiceVoting::new(voters);
    assert_eq!(rcv.calculate(), None);
}

#[test]
fn rcv_elimination_transfers_votes() {
    // Round one: x 2, y 2, z 1 of five voters; z is eliminated and its
    // voter's next choice y reaches three votes.
    let voters: Vec<Vec<&str>> = vec![
        vec!["x"],
        vec!["x"],
        vec!["y"],
        vec!["y"],
        vec!["z", "y"],
    ];
    let rcv = RankChoiceVoting::new(voters);
    assert_eq!(rcv.calculate(), Some(vec!["y"]));
}

#[test]
fn rcv_two_way_tie_has_no_winner() {
    // Two voters, one vote each: a win needs more than floor(2 / 2) = 1
    // vote, so both options are eliminated together.
    let voters: Vec<Vec<&str>> = vec![vec!["p"], vec!["q"]];
    let rcv = RankChoiceVoting::new(voters);
    assert_eq!(rcv.calculate(), None);
}
