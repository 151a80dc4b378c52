use conventional_commits_changelog_generator::tags::pair_ranges;
use conventional_commits_changelog_generator::tags::pairwise;
use conventional_commits_changelog_generator::tags::parse_tag;
use conventional_commits_changelog_generator::tags::resolve_tag_order;
use conventional_commits_changelog_generator::tags::strip_v_prefix;

fn strings(xs: &[&str]) -> Vec<String> {
    xs.iter().map(|s| s.to_string()).collect()
}

#[test]
fn strip_v_removes_leading_vs() {
    assert_eq!(strip_v_prefix("v1.2.3"), "1.2.3");
    assert_eq!(strip_v_prefix("vv1.2.3"), "1.2.3");
    assert_eq!(strip_v_prefix("1.2.3"), "1.2.3");
}

#[test]
fn parse_tag_strips_prefix() {
    let v = parse_tag("v0.2.0").expect("should parse");
    assert_eq!(v.major, "0");
    assert_eq!(v.minor, "2");
    assert_eq!(v.patch, "0");
    assert!(parse_tag("not-a-version").is_none());
}

#[test]
fn resolved_order_is_ascending_and_drops_junk() {
    let tags = strings(&["v0.2.0", "junk", "v0.1.0", "v1.0.0", "v0.10.0"]);
    let order = resolve_tag_order(&tags);
    assert_eq!(order, strings(&["v0.1.0", "v0.2.0", "v0.10.0", "v1.0.0"]));
}

#[test]
fn resolved_order_puts_head_last() {
    let tags = strings(&["HEAD", "v0.2.0", "v0.1.0"]);
    let order = resolve_tag_order(&tags);
    assert_eq!(order, strings(&["v0.1.0", "v0.2.0", "HEAD"]));
}

#[test]
fn resolved_order_orders_pre_releases_before_release() {
    let tags = strings(&["v1.0.0", "v1.0.0-rc.1", "v1.0.0-alpha"]);
    let order = resolve_tag_order(&tags);
    assert_eq!(order, strings(&["v1.0.0-alpha", "v1.0.0-rc.1", "v1.0.0"]));
}

#[test]
fn pairwise_yields_adjacent_pairs() {
    let tags = strings(&["a", "b", "c"]);
    let pairs = pairwise(&tags);
    assert_eq!(
        pairs,
        vec![
            ("a".to_string(), "b".to_string()),
            ("b".to_string(), "c".to_string()),
        ]
    );
    assert!(pairwise(&strings(&["a"])).is_empty());
    assert!(pairwise(&strings(&[])).is_empty());
}

#[test]
fn ranges_end_with_the_head_pair() {
    let pairs = pair_ranges(&strings(&["v0.1.0", "v0.2.0"]));
    assert_eq!(
        pairs,
        vec![
            ("v0.1.0".to_string(), "v0.2.0".to_string()),
            ("v0.2.0".to_string(), "HEAD".to_string()),
        ]
    );
}

#[test]
fn single_tag_pairs_against_head_only() {
    let pairs = pair_ranges(&strings(&["v1.0.0"]));
    assert_eq!(pairs, vec![("v1.0.0".to_string(), "HEAD".to_string())]);
}

#[test]
fn no_tags_yield_no_ranges() {
    assert!(pair_ranges(&strings(&[])).is_empty());
}

#[test]
fn trailing_head_entry_is_not_paired_twice() {
    let pairs = pair_ranges(&strings(&["v0.1.0", "HEAD"]));
    assert_eq!(pairs, vec![("v0.1.0".to_string(), "HEAD".to_string())]);
}

#[test]
fn equal_versions_both_survive_resolution() {
    let tags = strings(&["1.2.3", "v1.2.3", "v1.0.0"]);
    let order = resolve_tag_order(&tags);
    assert_eq!(order.len(), 3);
    assert_eq!(order[0], "v1.0.0");
    assert!(order.contains(&"1.2.3".to_string()));
    assert!(order.contains(&"v1.2.3".to_string()));
}

#[test]
fn pairing_is_deterministic_on_rederivation() {
    let order = resolve_tag_order(&strings(&["v0.2.0", "v0.1.0", "v0.3.0"]));
    let first = pair_ranges(&order);
    let second = pair_ranges(&order);
    assert_eq!(first, second);
}
