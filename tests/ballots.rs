use sha2::{Digest, Sha256};
use vote::idmap::IdMap;
use vote::liquid::DelegationLayout;
use vote::topic::{TopicData, Weight};
use vote::vote_data::VoteData;

fn w(x: f64) -> Weight {
    Weight { bits: x.to_bits() }
}

#[test]
fn only_policy() {
    let mut topic = TopicData::dummy();

    let alice = topic.get_id_by_name("alice").unwrap();
    let bob = topic.get_id_by_name("bob").unwrap();

    let votes = topic.votes();
    let alice_vote_len = votes.get(alice).unwrap().len();

    topic.cast_vote_to(alice, bob, w(1f64));

    let info = VoteData::from_topic(&topic);

    let policy_votes = info.only_policy_voting();
    let stripped = policy_votes.get(alice).unwrap().len();

    assert_eq!(stripped, alice_vote_len);
}

#[test]
fn only_delegate_keeps_delegation() {
    let mut topic = TopicData::dummy();
    let alice = topic.get_id_by_name("alice").unwrap();
    let bob = topic.get_id_by_name("bob").unwrap();
    topic.cast_vote_to(alice, bob, w(0.5));
    let info = VoteData::from_topic(&topic);
    let delegate_votes = info.only_delegate_voting();
    let ballot = delegate_votes.get(alice).unwrap();
    assert_eq!(ballot.len(), 1);
    assert_eq!(ballot.get(bob), Some(&w(0.5)));
}

#[test]
fn dummy_topic_has_its_names() {
    let topic = TopicData::dummy();
    let mut names = topic.delegates_values();
    names.sort();
    assert_eq!(names, vec!["alice".to_string(), "bob".to_string(), "charlie".to_string()]);
    let mut titles = topic.policies_values();
    titles.sort();
    assert_eq!(titles, vec!["apples".to_string(), "bananas".to_string(), "oranges".to_string()]);
    assert!(topic.get_id_by_title("bananas").is_some());
    assert!(topic.get_id_by_title("kiwis").is_none());
    assert_eq!(topic.votes().len(), 3);
}

#[test]
fn duplicate_names_are_refused() {
    let mut topic = TopicData::new("t", "d");
    let a = topic.add_new_delegate("alice");
    assert!(a.is_some());
    assert_eq!(topic.add_new_delegate("alice"), None);
    assert!(topic.add_new_policy("apples").is_some());
    assert_eq!(topic.add_new_policy("apples"), None);
    assert!(!topic.add_delegate(a.unwrap(), "other"));
    assert!(topic.add_delegate(7, "other"));
    assert_eq!(topic.get_id_by_name("other"), Some(7));
}

#[test]
fn fresh_identifiers_differ() {
    let mut topic = TopicData::new("t", "d");
    let a = topic.add_new_delegate("a").unwrap();
    let b = topic.add_new_delegate("b").unwrap();
    assert_ne!(a, b);
}

#[test]
fn later_vote_replaces_earlier_one() {
    let mut topic = TopicData::new("t", "d");
    topic.force_add_delegate(1, "a");
    topic.cast_vote_to(1, 9, w(0.25));
    topic.cast_vote_to(1, 8, w(0.5));
    topic.cast_vote_to(1, 9, w(0.75));
    let votes = topic.votes();
    let ballot = votes.get(1).unwrap();
    assert_eq!(ballot.len(), 2);
    assert_eq!(ballot.get(9), Some(&w(0.75)));
    let mut replacement = IdMap::new();
    replacement.insert(3, w(1.0));
    topic.overwrite_vote_for(1, replacement);
    let votes = topic.votes();
    assert_eq!(votes.get(1).unwrap().len(), 1);
}

fn build(order: &[u128]) -> TopicData {
    let mut topic = TopicData::new("same", "content");
    for id in order {
        topic.force_add_delegate(*id, "voter");
    }
    for id in order.iter().rev() {
        topic.cast_vote_to(*id, 100 + *id, w(0.5));
        topic.cast_vote_to(*id, 200, w(0.25));
    }
    topic
}

#[test]
fn hash_ignores_insertion_order() {
    let a = VoteData::from_topic(&build(&[1, 2, 3]));
    let b = VoteData::from_topic(&build(&[3, 1, 2]));
    assert_eq!(a.hash(), b.hash());
    assert_eq!(a.hash_sync(), b.hash());
    assert_eq!(a.request_id(), b.request_id());
    let c = VoteData::from_topic(&build(&[1, 2]));
    assert_ne!(a.hash(), c.hash());
}

#[test]
fn hash_is_digest_of_digests() {
    let mut topic = TopicData::new("h", "");
    topic.force_add_delegate(5, "e");
    topic.cast_vote_to(5, 6, w(2.0));
    let info = VoteData::from_topic(&topic);

    let d = Sha256::digest(&5u128.to_be_bytes()).to_vec();
    let p = Sha256::digest(&[]).to_vec();
    let mut v_bytes = Vec::new();
    v_bytes.extend_from_slice(&5u128.to_be_bytes());
    v_bytes.extend_from_slice(&6u128.to_be_bytes());
    v_bytes.extend_from_slice(&2.0f64.to_be_bytes());
    let v = Sha256::digest(&v_bytes).to_vec();
    let mut all = Vec::new();
    all.extend_from_slice(&d);
    all.extend_from_slice(&p);
    all.extend_from_slice(&v);
    let expected = Sha256::digest(&all).to_vec();

    assert_eq!(info.hash().len(), 32);
    assert_eq!(info.hash(), expected);
    assert_eq!(info.request_id(), bs58::encode(&expected).into_string());
}

fn breakfast<'a>() -> Vec<(&'a str, Vec<&'a str>)> {
    vec![
        ("minori", vec!["yasushi", "ray", "rice", "bread"]),
        ("yasushi", vec!["minori", "ray", "rice"]),
        ("ray", vec!["minori", "yasushi", "bread"]),
    ]
}

#[test]
fn matrix_shape() {
    let layout = DelegationLayout::new(&breakfast()).unwrap();
    assert_eq!(layout.size(), 5);
}

#[test]
fn layout_places_delegates_before_options() {
    let voters = breakfast();
    let layout = DelegationLayout::new(&voters).unwrap();
    assert_eq!(layout.delegates().len(), 3);
    assert_eq!(layout.policies().len(), 2);
    let ray = layout.row_of("ray").unwrap();
    assert!(ray < 3);
    assert_eq!(layout.column_of("ray"), Some(ray));
    let rice = layout.row_of("rice").unwrap();
    assert!(rice >= 3 && rice < 5);
    assert_eq!(layout.policies()[rice - 3], "rice");
    assert_eq!(layout.row_of("tea"), None);
    assert_eq!(layout.column_of("rice"), None);
}

#[test]
fn digest_inputs_are_big_endian() {
    let mut topic = TopicData::new("h", "");
    topic.force_add_delegate(0x0102, "e");
    topic.cast_vote_to(0x0102, 3, w(1.0));
    let (d, p, v) = VoteData::from_topic(&topic).digest_inputs();
    let mut expected_d = vec![0u8; 14];
    expected_d.extend_from_slice(&[1, 2]);
    assert_eq!(d, expected_d);
    assert!(p.is_empty());
    let mut expected_v = expected_d.clone();
    expected_v.extend_from_slice(&3u128.to_be_bytes());
    expected_v.extend_from_slice(&[0x3f, 0xf0, 0, 0, 0, 0, 0, 0]);
    assert_eq!(v, expected_v);
}

#[test]
fn id_map_keeps_keys_in_order() {
    let mut m: IdMap<u8> = IdMap::new();
    m.insert(30, 3);
    m.insert(10, 1);
    m.insert(20, 2);
    m.insert(10, 9);
    assert_eq!(m.len(), 3);
    assert_eq!(m.entry(0), (10, &9));
    assert_eq!(m.entry(1), (20, &2));
    assert_eq!(m.entry(2), (30, &3));
    assert_eq!(m.get(20), Some(&2));
    assert_eq!(m.get(25), None);
    assert!(m.contains_key(30));
    assert!(m.is_well_formed());
    assert_eq!(m.duplicate().entry(0), (10, &9));
}

#[test]
fn failed_modules_are_left_out() {
    let names = vec!["a".to_string(), "b".to_string(), "c".to_string()];
    let replies = vec![Some(1), None, Some(3)];
    let merged = vote::fanout::merge_replies(names, replies);
    assert_eq!(merged, vec![("a".to_string(), 1), ("c".to_string(), 3)]);
    let none: Vec<Option<u8>> = vec![None, None];
    assert!(vote::fanout::merge_replies(vec!["x".to_string(), "y".to_string()], none).is_empty());
}
