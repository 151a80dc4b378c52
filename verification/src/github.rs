//! Builders for the hosting-service links that appear in the changelog.

use crate::extractors::RepoInformation;
use vstd::prelude::*;
use vstd::string::StringExecFns;

verus! {

/// The rendered comparison link for a tag range.
pub open spec fn spec_link_for_range(
    from: Seq<char>,
    to: Seq<char>,
    owner: Seq<char>,
    repo: Seq<char>,
) -> Seq<char> {
    "https://github.com/"@ + owner + "/"@ + repo + "/compare/"@ + from + "..."@ + to
}

/// The rendered link for a single commit.
pub open spec fn spec_link_for_commit(
    hash: Seq<char>,
    owner: Seq<char>,
    repo: Seq<char>,
) -> Seq<char> {
    "https://github.com/"@ + owner + "/"@ + repo + "/commit/"@ + hash
}

/// The rendered link for an issue reference.
pub open spec fn spec_link_for_issue(
    issue_nr: Seq<char>,
    owner: Seq<char>,
    repo: Seq<char>,
) -> Seq<char> {
    "https://github.com/"@ + owner + "/"@ + repo + "/issues/"@ + issue_nr
}

/// A diff-view URL for the commits between two tags.
pub fn github_link_for_range(from: &str, to: &str, info: &RepoInformation) -> (r: String)
    ensures
        r@ == spec_link_for_range(from@, to@, info.owner@, info.repo@),
{
    let mut s = String::new();
    s.append("https://github.com/");
    s.append(info.owner.as_str());
    s.append("/");
    s.append(info.repo.as_str());
    s.append("/compare/");
    s.append(from);
    s.append("...");
    s.append(to);
    s
}

/// A URL pointing at one commit of the repository.
pub fn github_link_for_commit(hash: &str, info: &RepoInformation) -> (r: String)
    ensures
        r@ == spec_link_for_commit(hash@, info.owner@, info.repo@),
{
    let mut s = String::new();
    s.append("https://github.com/");
    s.append(info.owner.as_str());
    s.append("/");
    s.append(info.repo.as_str());
    s.append("/commit/");
    s.append(hash);
    s
}

/// A URL pointing at one issue of the repository.
pub fn github_link_for_issue(issue_nr: &str, info: &RepoInformation) -> (r: String)
    ensures
        r@ == spec_link_for_issue(issue_nr@, info.owner@, info.repo@),
{
    let mut s = String::new();
    s.append("https://github.com/");
    s.append(info.owner.as_str());
    s.append("/");
    s.append(info.repo.as_str());
    s.append("/issues/");
    s.append(issue_nr);
    s
}

} // verus!
