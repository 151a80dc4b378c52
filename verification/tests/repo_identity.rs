use conventional_commits_changelog_generator::extractors::CargoError;
use conventional_commits_changelog_generator::extractors::ExtractionError;
use conventional_commits_changelog_generator::extractors::Extractor;
use conventional_commits_changelog_generator::extractors::GitExtractorError;
use conventional_commits_changelog_generator::extractors::RemoteRecord;
use conventional_commits_changelog_generator::extractors::RepoInformation;
use conventional_commits_changelog_generator::extractors::UrlExtractionError;
use conventional_commits_changelog_generator::extractors::extract_repo_from_url;
use conventional_commits_changelog_generator::extractors::repo_from_manifest;
use conventional_commits_changelog_generator::extractors::repo_from_remotes;
use conventional_commits_changelog_generator::extractors::resolve_from_outcomes;
use conventional_commits_changelog_generator::extractors::resolve_repo_information;

fn info(owner: &str, repo: &str) -> RepoInformation {
    RepoInformation {
        owner: owner.to_string(),
        repo: repo.to_string(),
    }
}

#[test]
fn url_with_owner_and_repo() {
    let r = extract_repo_from_url("https://github.com/acme/widget").unwrap();
    assert_eq!(r, info("acme", "widget"));
}

#[test]
fn url_git_suffix_is_stripped() {
    let r = extract_repo_from_url("https://github.com/acme/widget.git").unwrap();
    assert_eq!(r, info("acme", "widget"));
}

#[test]
fn url_with_unsupported_host() {
    let r = extract_repo_from_url("https://gitlab.com/acme/widget");
    assert_eq!(
        r,
        Err(UrlExtractionError::UnsupportedHost {
            host: "gitlab.com".to_string()
        })
    );
}

#[test]
fn url_missing_repo_segment() {
    let r = extract_repo_from_url("https://github.com/acme");
    assert_eq!(r, Err(UrlExtractionError::ParseError));
}

#[test]
fn url_that_is_no_url() {
    let r = extract_repo_from_url("not a url at all");
    assert_eq!(r, Err(UrlExtractionError::ParseError));
}

#[test]
fn manifest_without_package_section() {
    let r = repo_from_manifest(false, None);
    assert_eq!(r, Err(ExtractionError::Cargo(CargoError::NoPackageSection)));
}

#[test]
fn manifest_without_repository_field() {
    let r = repo_from_manifest(true, None);
    assert_eq!(r, Err(ExtractionError::Cargo(CargoError::NoRepositoryField)));
}

#[test]
fn manifest_with_repository_url() {
    let r = repo_from_manifest(true, Some("https://github.com/acme/widget.git".to_string()));
    assert_eq!(r, Ok(info("acme", "widget")));
}

#[test]
fn remotes_prefer_upstream_over_origin() {
    let upstream = RemoteRecord {
        name: Some("upstream".to_string()),
        url: Some("https://github.com/up/stream".to_string()),
    };
    let origin = RemoteRecord {
        name: Some("origin".to_string()),
        url: Some("https://github.com/ori/gin".to_string()),
    };
    let r = repo_from_remotes(Some(upstream), Some(origin));
    assert_eq!(r, Ok(info("up", "stream")));
}

#[test]
fn remotes_fall_back_to_origin() {
    let origin = RemoteRecord {
        name: Some("origin".to_string()),
        url: Some("https://github.com/ori/gin".to_string()),
    };
    let r = repo_from_remotes(None, Some(origin));
    assert_eq!(r, Ok(info("ori", "gin")));
}

#[test]
fn no_remote_at_all() {
    let r = repo_from_remotes(None, None);
    assert_eq!(r, Err(ExtractionError::Git(GitExtractorError::NoMatchingRemote)));
}

#[test]
fn remote_without_url() {
    let rem = RemoteRecord {
        name: Some("origin".to_string()),
        url: None,
    };
    let r = repo_from_remotes(Some(rem), None);
    assert_eq!(
        r,
        Err(ExtractionError::Git(GitExtractorError::NoUrlInRemote {
            remote: "origin".to_string()
        }))
    );
}

#[test]
fn later_priority_success_overrides_earlier() {
    let outcomes = vec![(0u8, Some(info("generic", "one"))), (50u8, Some(info("manifest", "two")))];
    assert_eq!(resolve_from_outcomes(&outcomes), Some(info("manifest", "two")));
}

#[test]
fn priority_beats_registration_order() {
    let outcomes = vec![(50u8, Some(info("manifest", "two"))), (0u8, Some(info("generic", "one")))];
    assert_eq!(resolve_from_outcomes(&outcomes), Some(info("manifest", "two")));
}

#[test]
fn failed_extraction_leaves_previous_value() {
    let outcomes = vec![(0u8, Some(info("generic", "one"))), (50u8, None)];
    assert_eq!(resolve_from_outcomes(&outcomes), Some(info("generic", "one")));
}

#[test]
fn no_success_resolves_nothing() {
    let outcomes: Vec<(u8, Option<RepoInformation>)> = vec![(0, None), (50, None)];
    assert_eq!(resolve_from_outcomes(&outcomes), None);
}

enum FakeExtractor {
    Generic,
    Manifest,
    Broken,
}

impl Extractor for FakeExtractor {
    fn extract_repo_information(
        &self,
        _repo_dir: &String,
    ) -> Result<RepoInformation, ExtractionError> {
        match self {
            FakeExtractor::Generic => Ok(info("generic", "repo")),
            FakeExtractor::Manifest => Ok(info("manifest", "repo")),
            FakeExtractor::Broken => {
                Err(ExtractionError::Cargo(CargoError::NoRepositoryField))
            }
        }
    }

    fn priority(&self) -> u8 {
        match self {
            FakeExtractor::Generic => 0,
            FakeExtractor::Manifest => 50,
            FakeExtractor::Broken => 99,
        }
    }

    fn is_applicable(&self, _repo_dir: &String) -> bool {
        true
    }
}

#[test]
fn extractor_scan_adopts_the_most_specific_success() {
    let extractors = vec![FakeExtractor::Manifest, FakeExtractor::Generic, FakeExtractor::Broken];
    let r = resolve_repo_information(&extractors, &".".to_string());
    assert_eq!(r, Some(info("manifest", "repo")));
}
