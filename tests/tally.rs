use std::collections::BTreeSet;
use vote::borda::BordaCount;
use vote::fptp::FirstPastThePostVoting;

fn score(result: &[(&str, usize)], option: &str) -> Option<usize> {
    result.iter().find(|(o, _)| *o == option).map(|(_, s)| *s)
}

#[test]
fn fptp_simple() {
    let votes = vec!["dog", "dog", "cat"];
    let fptp = FirstPastThePostVoting::new(votes);
    assert_eq!(fptp.calculate(), vec!["dog"]);
}

#[test]
fn tie() {
    let votes = vec!["dog", "cat"];
    let fptp = FirstPastThePostVoting::new(votes);
    let result = fptp.calculate();
    assert!(result.contains(&"dog"));
    assert!(result.contains(&"cat"));
}

#[test]
fn fptp_pure_tie_returns_every_option() {
    let votes = vec!["a", "b", "c", "c", "b", "a"];
    let fptp = FirstPastThePostVoting::new(votes);
    let result: BTreeSet<&str> = fptp.calculate().into_iter().collect();
    let all: BTreeSet<&str> = ["a", "b", "c"].iter().cloned().collect();
    assert_eq!(result, all);
}

#[test]
fn fptp_no_votes_no_winner() {
    let fptp = FirstPastThePostVoting::new(vec![]);
    assert!(fptp.calculate().is_empty());
}

fn dinner<'a>() -> BordaCount<'a> {
    let minori = vec!["beef steak", "kungpao chicken", "white pork stew"];
    let yasushi = vec!["kungpao chicken", "beef steak", "white pork stew"];
    let ray = vec!["white pork stew", "beef steak", "kungpao chicken"];
    let sola = vec!["white pork stew", "kungpao chicken", "beef steak"];

    let voters: Vec<Vec<&'a str>> = vec![minori, yasushi, ray, sola].iter().cloned().collect();

    BordaCount::new(voters)
}

#[test]
fn borda_simple() {
    let borda = dinner();
    let result = borda.calculate();
    let chicken = score(&result, "kungpao chicken").unwrap();
    let pork = score(&result, "white pork stew").unwrap();

    assert_eq!(pork, 8);
    assert_eq!(chicken, 8);
}

#[test]
fn borda_dinner_beef() {
    let result = dinner().calculate();
    assert_eq!(score(&result, "beef steak"), Some(3 + 2 + 2 + 1));
    assert_eq!(result.len(), 3);
}

#[test]
fn borda_one_ballot_awards_triangle_number() {
    let borda = BordaCount::new(vec![vec!["a", "b", "c", "d"]]);
    let result = borda.calculate();
    let total: usize = result.iter().map(|(_, s)| *s).sum();
    assert_eq!(total, 4 * 5 / 2);
    assert_eq!(score(&result, "a"), Some(4));
    assert_eq!(score(&result, "d"), Some(1));
}

#[test]
fn borda_lengths_differ_per_voter() {
    let borda = BordaCount::new(vec![vec!["a"], vec!["b", "a"]]);
    let result = borda.calculate();
    assert_eq!(score(&result, "a"), Some(2));
    assert_eq!(score(&result, "b"), Some(2));
}

#[test]
fn borda_no_voters() {
    let borda = BordaCount::new(vec![]);
    assert!(borda.calculate().is_empty());
}
