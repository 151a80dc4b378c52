use conventional_commits_changelog_generator::version::SemanticVersion;
use conventional_commits_changelog_generator::version::parse_version;
use conventional_commits_changelog_generator::version::version_le_exec;
use conventional_commits_changelog_generator::version::version_lt_exec;

fn parsed(s: &str) -> SemanticVersion {
    parse_version(s).expect("should parse")
}

#[test]
fn parse_plain_version() {
    let v = parsed("1.2.3");
    assert_eq!(v.major, "1");
    assert_eq!(v.minor, "2");
    assert_eq!(v.patch, "3");
    assert!(v.pre.is_empty());
    assert!(v.build.is_empty());
}

#[test]
fn parse_pre_release_and_build() {
    let v = parsed("1.0.0-alpha.1+build.5");
    assert_eq!(v.major, "1");
    assert_eq!(v.pre, vec!["alpha".to_string(), "1".to_string()]);
    assert_eq!(v.build, vec!["build".to_string(), "5".to_string()]);
}

#[test]
fn parse_hyphen_inside_pre_release() {
    let v = parsed("1.0.0-x-y-z.4");
    assert_eq!(v.pre, vec!["x-y-z".to_string(), "4".to_string()]);
}

#[test]
fn parse_rejects_malformed_versions() {
    assert!(parse_version("1.2").is_none());
    assert!(parse_version("1.2.3.4").is_none());
    assert!(parse_version("01.2.3").is_none());
    assert!(parse_version("1.2.3-").is_none());
    assert!(parse_version("1.2.3-alpha.01").is_none());
    assert!(parse_version("1.2.3+a+b").is_none());
    assert!(parse_version("1.2.3-a_b").is_none());
    assert!(parse_version("HEAD").is_none());
    assert!(parse_version("").is_none());
}

#[test]
fn parse_accepts_large_numbers() {
    let v = parsed("18446744073709551616.0.0");
    assert_eq!(v.major, "18446744073709551616");
}

#[test]
fn precedence_chain() {
    // The canonical ordering chain of the semantic-version specification.
    let chain = [
        "1.0.0-alpha",
        "1.0.0-alpha.1",
        "1.0.0-alpha.beta",
        "1.0.0-beta",
        "1.0.0-beta.2",
        "1.0.0-beta.11",
        "1.0.0-rc.1",
        "1.0.0",
        "2.0.0",
        "2.1.0",
        "2.1.1",
    ];
    for w in chain.windows(2) {
        let a = parsed(w[0]);
        let b = parsed(w[1]);
        assert!(version_lt_exec(&a, &b), "{} should precede {}", w[0], w[1]);
        assert!(!version_lt_exec(&b, &a), "{} should not precede {}", w[1], w[0]);
    }
}

#[test]
fn build_metadata_ignored_in_precedence() {
    let a = parsed("1.0.0+one");
    let b = parsed("1.0.0+two");
    assert!(!version_lt_exec(&a, &b));
    assert!(!version_lt_exec(&b, &a));
    assert!(version_le_exec(&a, &b));
    assert!(version_le_exec(&b, &a));
}

#[test]
fn numeric_identifiers_compare_numerically() {
    let a = parsed("1.0.0-9");
    let b = parsed("1.0.0-10");
    assert!(version_lt_exec(&a, &b));
}
