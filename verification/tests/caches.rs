use stub_resolver::cache::CacheNode;
use stub_resolver::label::QueryToken;

fn root() -> CacheNode {
    CacheNode::new(QueryToken::new("."), Some(vec![127, 0, 0, 1]))
}

fn text(label: &QueryToken) -> String {
    String::from_utf8(label.data.clone()).unwrap()
}

fn store(node: &mut CacheNode, path: &[&str], data: &[u8]) {
    let owned: Vec<QueryToken> = path.iter().map(|l| QueryToken::new(l)).collect();
    let refs: Vec<&QueryToken> = owned.iter().collect();
    node.insert_stream(&refs, &data.to_vec());
}

fn find(node: &mut CacheNode, path: &[&str]) -> (String, Option<Vec<u8>>, usize) {
    let owned: Vec<QueryToken> = path.iter().map(|l| QueryToken::new(l)).collect();
    let refs: Vec<&QueryToken> = owned.iter().collect();
    let found = node.search_by_label_stream(&refs);
    (text(found.label()), found.payload().clone(), found.child_count())
}

#[test]
fn new_node_has_its_label_and_payload_and_no_children() {
    let node = CacheNode::new(QueryToken::new("Com"), Some(vec![1, 2]));
    assert_eq!(text(node.label()), "Com");
    assert_eq!(node.payload(), &Some(vec![1, 2]));
    assert_eq!(node.child_count(), 0);
    let bare = CacheNode::new(QueryToken::new(""), None);
    assert_eq!(bare.payload(), &None);
    assert!(bare.label().data.is_empty());
}

#[test]
fn stored_name_is_found_with_its_payload() {
    let mut cache = root();
    store(&mut cache, &["com", "example"], &[93, 184, 216, 34]);
    let (label, payload, _) = find(&mut cache, &["com", "example"]);
    assert_eq!(label, "example");
    assert_eq!(payload, Some(vec![93, 184, 216, 34]));
}

#[test]
fn unknown_first_label_ends_the_walk_at_the_root() {
    let mut cache = root();
    store(&mut cache, &["com", "example"], &[93, 184, 216, 34]);
    let (label, payload, children) = find(&mut cache, &["net", "example"]);
    assert_eq!(label, ".");
    assert_eq!(payload, Some(vec![127, 0, 0, 1]));
    assert_eq!(children, 1);
}

#[test]
fn name_stored_in_capitals_is_found_in_small_letters() {
    let mut cache = root();
    store(&mut cache, &["COM", "Example"], &[1, 2, 3, 4]);
    let (label, payload, _) = find(&mut cache, &["com", "example"]);
    assert_eq!(label, "Example");
    assert_eq!(payload, Some(vec![1, 2, 3, 4]));
    let (label, payload, _) = find(&mut cache, &["CoM", "EXAMPLE"]);
    assert_eq!(label, "Example");
    assert_eq!(payload, Some(vec![1, 2, 3, 4]));
}

#[test]
fn other_spelling_stores_into_the_same_node() {
    let mut cache = root();
    store(&mut cache, &["COM", "Example"], &[1]);
    store(&mut cache, &["com", "example"], &[2]);
    assert_eq!(cache.child_count(), 1);
    let (label, payload, children) = find(&mut cache, &["com"]);
    assert_eq!(label, "COM");
    assert_eq!(payload, None);
    assert_eq!(children, 1);
    let (label, payload, _) = find(&mut cache, &["com", "example"]);
    assert_eq!(label, "Example");
    assert_eq!(payload, Some(vec![2]));
}

#[test]
fn nodes_on_the_way_hold_no_payload() {
    let mut cache = root();
    store(&mut cache, &["com", "example", "www"], &[7]);
    let (label, payload, children) = find(&mut cache, &["com"]);
    assert_eq!((label.as_str(), payload, children), ("com", None, 1));
    let (label, payload, children) = find(&mut cache, &["com", "example"]);
    assert_eq!((label.as_str(), payload, children), ("example", None, 1));
    let (label, payload, children) = find(&mut cache, &["com", "example", "www"]);
    assert_eq!((label.as_str(), payload, children), ("www", Some(vec![7]), 0));
}

#[test]
fn walk_stops_at_the_deepest_known_label() {
    let mut cache = root();
    store(&mut cache, &["com", "example"], &[5]);
    let (label, payload, _) = find(&mut cache, &["com", "example", "www"]);
    assert_eq!(label, "example");
    assert_eq!(payload, Some(vec![5]));
    let (label, payload, _) = find(&mut cache, &["com", "other", "www"]);
    assert_eq!(label, "com");
    assert_eq!(payload, None);
}

#[test]
fn names_with_a_common_suffix_share_nodes() {
    let mut cache = root();
    store(&mut cache, &["com", "example"], &[1]);
    store(&mut cache, &["com", "test"], &[2]);
    store(&mut cache, &["org", "example"], &[3]);
    assert_eq!(cache.child_count(), 2);
    let (_, _, children) = find(&mut cache, &["com"]);
    assert_eq!(children, 2);
    assert_eq!(find(&mut cache, &["com", "example"]).1, Some(vec![1]));
    assert_eq!(find(&mut cache, &["com", "test"]).1, Some(vec![2]));
    assert_eq!(find(&mut cache, &["org", "example"]).1, Some(vec![3]));
}

#[test]
fn storing_again_overwrites_the_payload() {
    let mut cache = root();
    store(&mut cache, &["com", "example"], &[1, 1, 1, 1]);
    store(&mut cache, &["com", "example"], &[2, 2]);
    assert_eq!(find(&mut cache, &["com", "example"]).1, Some(vec![2, 2]));
    assert_eq!(cache.child_count(), 1);
    assert_eq!(find(&mut cache, &["com"]).2, 1);
}

#[test]
fn storing_for_a_node_on_the_way_keeps_what_is_below() {
    let mut cache = root();
    store(&mut cache, &["com", "example", "www"], &[1]);
    store(&mut cache, &["com", "example"], &[2]);
    assert_eq!(find(&mut cache, &["com", "example"]).1, Some(vec![2]));
    assert_eq!(find(&mut cache, &["com", "example", "www"]).1, Some(vec![1]));
}

#[test]
fn empty_payload_is_a_payload() {
    let mut cache = root();
    store(&mut cache, &["com"], &[]);
    assert_eq!(find(&mut cache, &["com"]).1, Some(vec![]));
}

#[test]
fn storing_for_no_labels_sets_the_payload_of_the_root() {
    let mut cache = root();
    store(&mut cache, &[], &[9, 9]);
    assert_eq!(cache.payload(), &Some(vec![9, 9]));
    assert_eq!(cache.child_count(), 0);
}

#[test]
fn walk_along_no_labels_ends_at_the_root() {
    let mut cache = root();
    store(&mut cache, &["com"], &[1]);
    let (label, payload, children) = find(&mut cache, &[]);
    assert_eq!((label.as_str(), payload, children), (".", Some(vec![127, 0, 0, 1]), 1));
}

#[test]
fn has_label_sees_children_only() {
    let mut cache = root();
    store(&mut cache, &["com", "example"], &[1]);
    assert!(cache.has_label(&QueryToken::new("com")));
    assert!(cache.has_label(&QueryToken::new("COM")));
    assert!(!cache.has_label(&QueryToken::new("example")));
    assert!(!cache.has_label(&QueryToken::new(".")));
    assert!(!cache.has_label(&QueryToken::new("")));
}

#[test]
fn search_by_label_hands_out_the_child() {
    let mut cache = root();
    store(&mut cache, &["com", "example"], &[1]);
    store(&mut cache, &["org"], &[2]);
    {
        let child = cache.search_by_label(&QueryToken::new("ORG")).unwrap();
        assert_eq!(text(child.label()), "org");
        assert_eq!(child.payload(), &Some(vec![2]));
        child.update(&vec![3, 3]);
    }
    assert_eq!(find(&mut cache, &["org"]).1, Some(vec![3, 3]));
    assert!(cache.search_by_label(&QueryToken::new("net")).is_none());
}

#[test]
fn search_by_label_takes_the_first_of_two() {
    let mut node = root();
    node.insert(&QueryToken::new("a"), Some(vec![1]));
    node.insert(&QueryToken::new("A"), Some(vec![2]));
    let found = node.search_by_label(&QueryToken::new("a")).unwrap();
    assert_eq!(found.payload(), &Some(vec![1]));
    assert_eq!(text(found.label()), "a");
}

#[test]
fn insert_adds_a_child_after_the_others() {
    let mut node = root();
    {
        let child = node.insert(&QueryToken::new("com"), None);
        assert_eq!(text(child.label()), "com");
        assert_eq!(child.payload(), &None);
        assert_eq!(child.child_count(), 0);
        child.insert(&QueryToken::new("example"), Some(vec![4]));
    }
    node.insert(&QueryToken::new("org"), Some(vec![5]));
    assert_eq!(node.child_count(), 2);
    assert_eq!(find(&mut node, &["com", "example"]).1, Some(vec![4]));
    assert_eq!(find(&mut node, &["org"]).1, Some(vec![5]));
}

#[test]
fn update_sets_the_payload_and_nothing_else() {
    let mut node = CacheNode::new(QueryToken::new("x"), None);
    node.insert(&QueryToken::new("y"), None);
    node.update(&vec![1, 2, 3]);
    assert_eq!(node.payload(), &Some(vec![1, 2, 3]));
    assert_eq!(text(node.label()), "x");
    assert_eq!(node.child_count(), 1);
    node.update(&vec![]);
    assert_eq!(node.payload(), &Some(vec![]));
}

#[test]
fn change_through_the_found_node_stays_in_the_tree() {
    let mut cache = root();
    store(&mut cache, &["com", "example"], &[1]);
    {
        let owned = [QueryToken::new("com"), QueryToken::new("example")];
        let refs: Vec<&QueryToken> = owned.iter().collect();
        let found = cache.search_by_label_stream(&refs);
        found.update(&vec![8, 8]);
    }
    assert_eq!(find(&mut cache, &["com", "example"]).1, Some(vec![8, 8]));
}
