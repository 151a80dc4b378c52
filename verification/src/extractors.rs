//! Repository-identity resolution through a prioritized chain of
//! extractors.
//!
//! An extractor reads one metadata source (the version-control remotes,
//! an ecosystem manifest) and derives the repository's owner and name. All
//! applicable extractors run in ascending priority order, and the last
//! success wins: more specific sources carry higher priority values and
//! run later, so they intentionally override the generic ones. A failed
//! extraction leaves the previously resolved value in place.

use crate::text::str_eq;
use vstd::prelude::*;
use vstd::string::StrSliceExecFns;
use vstd::string::StringExecFns;

verus! {

/// The priority that extractors relying on language-specific files
/// (a package manifest) should use: high enough to override the generic
/// version-control extractor.
pub const LANGUAGE_RELATED_PRIORITY: u8 = 50;

/// Information about a remote repository.
#[derive(Clone, Debug, Eq, Hash, PartialEq)]
pub struct RepoInformation {
    pub owner: String,
    pub repo: String,
}

/// Failure to read a repository identity out of a URL.
#[derive(Clone, Debug, Eq, PartialEq)]
pub enum UrlExtractionError {
    /// The string is no URL, has no host, or its path is missing the
    /// owner or repository segment.
    ParseError,
    /// The host is not the supported hosting service.
    UnsupportedHost { host: String },
}

/// Failure to read a repository identity out of a package manifest.
#[derive(Clone, Debug, Eq, PartialEq)]
pub enum CargoError {
    NoPackageSection,
    NoRepositoryField,
}

/// Failure to read a repository identity out of the version-control
/// remotes.
#[derive(Clone, Debug, Eq, PartialEq)]
pub enum GitExtractorError {
    /// Thrown when no matching remote could be found.
    NoMatchingRemote,
    NoUrlInRemote { remote: String },
}

/// What a single extractor can fail with.
#[derive(Clone, Debug, Eq, PartialEq)]
pub enum ExtractionError {
    Cargo(CargoError),
    Git(GitExtractorError),
    Url(UrlExtractionError),
    /// The metadata source itself could not be read.
    Source { reason: String },
}

/// An extractor is used to extract certain information from a project.
/// Implementations read their metadata source themselves; the library
/// only drives the scan over them.
pub trait Extractor {
    /// Extracts information about the upstream repository for a project
    /// in the given directory.
    fn extract_repo_information(&self, repo_dir: &String) -> Result<
        RepoInformation,
        ExtractionError,
    >;

    /// The priority of the extractor: the lower it is, the earlier the
    /// extractor runs, and the later its result can be overridden.
    fn priority(&self) -> u8;

    /// Whether the extractor applies to the project at all, mostly a
    /// check that certain files exist.
    fn is_applicable(&self, repo_dir: &String) -> bool;
}

/// What parsing a URL yields: nothing when the string is no URL, else its
/// host (when it has one) and its path segments (when it has a path).
pub uninterp spec fn url_parts_of(s: Seq<char>) -> Option<
    (Option<Seq<char>>, Option<Seq<Seq<char>>>),
>;

/// Relies on `url::Url::parse`, `Url::host_str` and `Url::path_segments`:
/// the parse of a URL string, its host and its path segments are
/// functions of the string alone.
#[verifier::external_body]
fn split_url(s: &str) -> (r: Option<(Option<String>, Option<Vec<String>>)>)
    ensures
        r is Some <==> url_parts_of(s@) is Some,
        r is Some ==> ({
            let (h, p) = r.unwrap();
            let (hs, ps) = url_parts_of(s@).unwrap();
            &&& (h is Some <==> hs is Some)
            &&& (h is Some ==> h.unwrap()@ == hs.unwrap())
            &&& (p is Some <==> ps is Some)
            &&& (p is Some ==> p.unwrap().deep_view() == ps.unwrap())
        }),
{
    match url::Url::parse(s) {
        Ok(u) => {
            let host = u.host_str().map(|h| h.to_string());
            let segs: Option<Vec<String>> = u.path_segments().map(
                |it| it.map(|x| x.to_string()).collect(),
            );
            Some((host, segs))
        },
        Err(_) => None,
    }
}

/// A repository segment with a trailing `.git` removed.
pub open spec fn strip_git_suffix(s: Seq<char>) -> Seq<char> {
    if s.len() >= 4 && s.subrange(s.len() - 4, s.len() as int) == ".git"@ {
        s.take(s.len() - 4)
    } else {
        s
    }
}

/// Exactly what reading a repository identity out of a URL string
/// yields. A result is right for a URL when: a success names the first
/// two path segments of a URL whose host is the supported hosting
/// service, with a trailing `.git` stripped from the second; an
/// unsupported-host error names the host of a URL whose host is any
/// other; and a parse error marks a string that is no URL, has no host,
/// or is missing the owner or repository segment.
pub open spec fn url_extraction_ok(
    url: Seq<char>,
    r: Result<RepoInformation, UrlExtractionError>,
) -> bool {
    let parts = url_parts_of(url);
    match r {
        Ok(info) => {
            &&& parts is Some
            &&& parts.unwrap().0 == Some("github.com"@)
            &&& parts.unwrap().1 is Some
            &&& parts.unwrap().1.unwrap().len() >= 2
            &&& info.owner@ == parts.unwrap().1.unwrap()[0]
            &&& info.repo@ == strip_git_suffix(parts.unwrap().1.unwrap()[1])
        },
        Err(UrlExtractionError::UnsupportedHost { host }) => {
            &&& parts is Some
            &&& parts.unwrap().0 is Some
            &&& parts.unwrap().0.unwrap() != "github.com"@
            &&& host@ == parts.unwrap().0.unwrap()
        },
        Err(UrlExtractionError::ParseError) => {
            ||| parts is None
            ||| parts.unwrap().0 is None
            ||| (parts.unwrap().0 == Some("github.com"@) && (parts.unwrap().1 is None
                || parts.unwrap().1.unwrap().len() < 2))
        },
    }
}

/// The same outcome, lifted to the extractor error type: only a URL
/// error may stand in for a failed URL read.
pub open spec fn lifted_url_extraction_ok(
    url: Seq<char>,
    r: Result<RepoInformation, ExtractionError>,
) -> bool {
    match r {
        Ok(info) => url_extraction_ok(url, Ok(info)),
        Err(ExtractionError::Url(u)) => url_extraction_ok(url, Err(u)),
        Err(_) => false,
    }
}

/// Reads a repository identity out of a URL: the host must be the
/// supported hosting service, the first two path segments are the owner
/// and the repository name, and a trailing `.git` is stripped from the
/// name. Any other host is an unsupported-host error; a missing host or
/// segment is a parse error.
pub fn extract_repo_from_url(url: &str) -> (r: Result<RepoInformation, UrlExtractionError>)
    ensures
        url_extraction_ok(url@, r),
{
    match split_url(url) {
        None => Err(UrlExtractionError::ParseError),
        Some((host_opt, segs_opt)) => {
            match host_opt {
                None => Err(UrlExtractionError::ParseError),
                Some(host) => {
                    if !str_eq(host.as_str(), "github.com") {
                        return Err(UrlExtractionError::UnsupportedHost { host });
                    }
                    match segs_opt {
                        None => Err(UrlExtractionError::ParseError),
                        Some(segs) => {
                            if segs.len() < 2 {
                                return Err(UrlExtractionError::ParseError);
                            }
                            proof {
                                assert(segs.deep_view()[0] == segs@[0]@);
                                assert(segs.deep_view()[1] == segs@[1]@);
                            }
                            let owner = segs[0].clone();
                            let seg = &segs[1];
                            let n = seg.as_str().unicode_len();
                            let repo: String = if n >= 4 {
                                let tail = seg.as_str().substring_char(n - 4, n);
                                if str_eq(tail, ".git") {
                                    proof {
                                        assert(tail@ == seg@.subrange(n - 4, n as int));
                                    }
                                    seg.as_str().substring_char(0, n - 4).to_owned()
                                } else {
                                    seg.clone()
                                }
                            } else {
                                seg.clone()
                            };
                            Ok(RepoInformation { owner, repo })
                        },
                    }
                },
            }
        },
    }
}

/// Reads a repository identity out of the fields of a package manifest:
/// the package section must exist and hold a repository URL, which is
/// then read as usual.
pub fn repo_from_manifest(package_present: bool, repository: Option<String>) -> (r: Result<
    RepoInformation,
    ExtractionError,
>)
    ensures
        !package_present ==> r == Err::<RepoInformation, ExtractionError>(
            ExtractionError::Cargo(CargoError::NoPackageSection),
        ),
        package_present && repository is None ==> r == Err::<RepoInformation, ExtractionError>(
            ExtractionError::Cargo(CargoError::NoRepositoryField),
        ),
        package_present && repository is Some ==> lifted_url_extraction_ok(
            repository.unwrap()@,
            r,
        ),
{
    if !package_present {
        return Err(ExtractionError::Cargo(CargoError::NoPackageSection));
    }
    match repository {
        None => Err(ExtractionError::Cargo(CargoError::NoRepositoryField)),
        Some(url) => {
            match extract_repo_from_url(url.as_str()) {
                Ok(info) => Ok(info),
                Err(e) => Err(ExtractionError::Url(e)),
            }
        },
    }
}

/// One named remote of the repository: its name, when the version-control
/// store records one, and its URL, when it has one.
pub struct RemoteRecord {
    pub name: Option<String>,
    pub url: Option<String>,
}

/// What one remote owes the resolver: its URL read as usual when it has
/// one, and a no-URL error naming the remote (or `<not found>` when the
/// store records no name) when it has none.
pub open spec fn remote_extraction_ok(
    remote: RemoteRecord,
    r: Result<RepoInformation, ExtractionError>,
) -> bool {
    match remote.url {
        Some(url) => lifted_url_extraction_ok(url@, r),
        None => r matches Err(ExtractionError::Git(
            GitExtractorError::NoUrlInRemote { remote: n },
        )) && (remote.name is Some ==> n@ == remote.name.unwrap()@) && (remote.name is None ==> n@
            == "<not found>"@),
    }
}

/// Reads a repository identity out of one remote: its URL, when it has
/// one, read as usual.
pub fn extract_from_remote(remote: RemoteRecord) -> (r: Result<RepoInformation, ExtractionError>)
    ensures
        remote_extraction_ok(remote, r),
{
    match remote.url {
        Some(url) => {
            match extract_repo_from_url(url.as_str()) {
                Ok(info) => Ok(info),
                Err(e) => Err(ExtractionError::Url(e)),
            }
        },
        None => {
            let name = match remote.name {
                Some(n) => n,
                None => String::from_str("<not found>"),
            };
            Err(ExtractionError::Git(GitExtractorError::NoUrlInRemote { remote: name }))
        },
    }
}

/// Reads a repository identity out of the version-control remotes: the
/// `upstream` remote when it exists, else the `origin` remote, else no
/// matching remote.
pub fn repo_from_remotes(upstream: Option<RemoteRecord>, origin: Option<RemoteRecord>) -> (r:
    Result<RepoInformation, ExtractionError>)
    ensures
        upstream matches Some(u) ==> remote_extraction_ok(u, r),
        upstream is None ==> (origin matches Some(o) ==> remote_extraction_ok(o, r)),
        upstream is None && origin is None ==> r == Err::<RepoInformation, ExtractionError>(
            ExtractionError::Git(GitExtractorError::NoMatchingRemote),
        ),
{
    match upstream {
        Some(rem) => extract_from_remote(rem),
        None => {
            match origin {
                Some(rem) => extract_from_remote(rem),
                None => Err(ExtractionError::Git(GitExtractorError::NoMatchingRemote)),
            }
        },
    }
}

/// The entry the scan adopts: a success whose priority, with its position
/// as tie-breaker, is above every other success. Running the extractors
/// in ascending priority order and keeping the last success adopts
/// exactly this entry.
pub open spec fn is_winner(outcomes: Seq<(u8, Option<RepoInformation>)>, i: int) -> bool {
    &&& 0 <= i < outcomes.len()
    &&& outcomes[i].1 is Some
    &&& forall|j: int|
        0 <= j < outcomes.len() && (#[trigger] outcomes[j]).1 is Some ==> (outcomes[j].0
            < outcomes[i].0 || (outcomes[j].0 == outcomes[i].0 && j <= i))
}

/// Folds the outcomes of the extractor scan, one `(priority, result)`
/// entry per extractor in registration order: the last success in
/// ascending priority order wins, so a higher-priority success overrides
/// every lower one, and a failure leaves the result untouched.
pub fn resolve_from_outcomes(outcomes: &Vec<(u8, Option<RepoInformation>)>) -> (r: Option<
    RepoInformation,
>)
    ensures
        r is Some <==> exists|i: int|
            0 <= i < outcomes@.len() && (#[trigger] outcomes@[i]).1 is Some,
        r is Some ==> exists|i: int| #[trigger] is_winner(outcomes@, i) && r == outcomes@[i].1,
{
    let mut best: Option<RepoInformation> = None;
    let mut best_pri: u8 = 0;
    let mut idx: usize = 0;
    while idx < outcomes.len()
        invariant
            0 <= idx <= outcomes@.len(),
            best is None ==> forall|j: int|
                0 <= j < idx ==> (#[trigger] outcomes@[j]).1 is None,
            best is Some ==> exists|i: int|
                0 <= i < idx && (#[trigger] outcomes@[i]).1 == best && outcomes@[i].0 == best_pri
                    && (forall|j: int|
                    0 <= j < idx && (#[trigger] outcomes@[j]).1 is Some ==> (outcomes@[j].0
                        < best_pri || (outcomes@[j].0 == best_pri && j <= i))),
        decreases outcomes@.len() - idx,
    {
        let (pri, outcome) = &outcomes[idx];
        match outcome {
            Some(info) => {
                let take = match &best {
                    None => true,
                    Some(_) => *pri >= best_pri,
                };
                if take {
                    let ghost old_best = best;
                    let ghost old_pri = best_pri;
                    best = Some(
                        RepoInformation { owner: info.owner.clone(), repo: info.repo.clone() },
                    );
                    best_pri = *pri;
                    proof {
                        assert(best == outcomes@[idx as int].1);
                        assert forall|j: int|
                            0 <= j < idx + 1 && (#[trigger] outcomes@[j]).1 is Some implies (
                        outcomes@[j].0 < best_pri || (outcomes@[j].0 == best_pri && j
                            <= idx as int)) by {
                            if j < idx && old_best is Some {
                                let i0 = choose|i0: int|
                                    0 <= i0 < idx && (#[trigger] outcomes@[i0]).1 == old_best
                                        && outcomes@[i0].0 == old_pri && (forall|k: int|
                                        0 <= k < idx && (#[trigger] outcomes@[k]).1 is Some ==> (
                                        outcomes@[k].0 < old_pri || (outcomes@[k].0 == old_pri && k
                                            <= i0)));
                                assert(outcomes@[j].0 < old_pri || outcomes@[j].0 == old_pri);
                            }
                        }
                    }
                }
            },
            None => {},
        }
        idx += 1;
    }
    proof {
        if best is Some {
            let i = choose|i: int|
                0 <= i < outcomes@.len() && (#[trigger] outcomes@[i]).1 == best && outcomes@[i].0
                    == best_pri && (forall|j: int|
                    0 <= j < outcomes@.len() && (#[trigger] outcomes@[j]).1 is Some ==> (
                    outcomes@[j].0 < best_pri || (outcomes@[j].0 == best_pri && j <= i)));
            assert(is_winner(outcomes@, i));
        }
    }
    best
}

/// How many priorities of a list lie strictly below a bound.
pub open spec fn count_below_priority(ps: Seq<u8>, b: int) -> int {
    ps.filter(|x: u8| (x as int) < b).len() as int
}

/// How many priorities of a list equal a value.
pub open spec fn count_with_priority(ps: Seq<u8>, b: int) -> int {
    ps.filter(|x: u8| (x as int) == b).len() as int
}

/// The priorities below `b + 1` are those below `b` and those equal to
/// `b`.
proof fn lemma_count_priority_split(ps: Seq<u8>, b: int)
    ensures
        count_below_priority(ps, b) + count_with_priority(ps, b) == count_below_priority(
            ps,
            b + 1,
        ),
    decreases ps.len(),
{
    reveal(Seq::filter);
    if ps.len() > 0 {
        lemma_count_priority_split(ps.drop_last(), b);
    }
}

/// Every priority lies below 256.
proof fn lemma_count_priority_all(ps: Seq<u8>)
    ensures
        count_below_priority(ps, 256) == ps.len(),
    decreases ps.len(),
{
    reveal(Seq::filter);
    if ps.len() > 0 {
        lemma_count_priority_all(ps.drop_last());
    }
}

/// Gathers one `(priority, outcome)` entry per extractor, in ascending
/// priority order and registration order among equal priorities. Each
/// applicable extractor runs once, in that order; an inapplicable or
/// failed one contributes an empty outcome at its priority.
fn gather_outcomes<E: Extractor>(extractors: &Vec<E>, repo_dir: &String) -> (r: Vec<
    (u8, Option<RepoInformation>),
>)
    ensures
        r@.len() == extractors@.len(),
        forall|i: int, j: int|
            0 <= i <= j < r@.len() ==> (#[trigger] r@[i]).0 <= (#[trigger] r@[j]).0,
{
    let mut pris: Vec<u8> = Vec::new();
    let mut i: usize = 0;
    while i < extractors.len()
        invariant
            pris@.len() == i,
            0 <= i <= extractors.len(),
        decreases extractors.len() - i,
    {
        pris.push(extractors[i].priority());
        i += 1;
    }
    let ghost pvs = pris@;
    let mut outcomes: Vec<(u8, Option<RepoInformation>)> = Vec::new();
    let mut p: u16 = 0;
    proof {
        lemma_count_priority_zero(pvs);
    }
    while p < 256
        invariant
            0 <= p <= 256,
            pris@ == pvs,
            pvs.len() == extractors@.len(),
            outcomes@.len() == count_below_priority(pvs, p as int),
            forall|x: int| 0 <= x < outcomes@.len() ==> ((#[trigger] outcomes@[x]).0 as int) < p as int,
            forall|i: int, j: int|
                0 <= i <= j < outcomes@.len() ==> (#[trigger] outcomes@[i]).0 <= (
                #[trigger] outcomes@[j]).0,
        decreases 256 - p,
    {
        let mut k: usize = 0;
        proof {
            assert(count_with_priority(pvs.take(0), p as int) == 0) by {
                reveal(Seq::filter);
                assert(pvs.take(0) =~= Seq::<u8>::empty());
            }
        }
        while k < extractors.len()
            invariant
                pris@ == pvs,
                pvs.len() == extractors@.len(),
                0 <= k <= extractors.len(),
                0 <= p < 256,
                outcomes@.len() == count_below_priority(pvs, p as int) + count_with_priority(
                    pvs.take(k as int),
                    p as int,
                ),
                forall|x: int|
                    0 <= x < outcomes@.len() ==> ((#[trigger] outcomes@[x]).0 as int) <= p as int,
                forall|i: int, j: int|
                    0 <= i <= j < outcomes@.len() ==> (#[trigger] outcomes@[i]).0 <= (
                    #[trigger] outcomes@[j]).0,
            decreases extractors.len() - k,
        {
            let ghost prevp = pvs.take(k as int);
            proof {
                assert(pvs.take(k as int + 1) =~= prevp.push(pvs[k as int]));
                assert(prevp.push(pvs[k as int]).drop_last() =~= prevp);
                assert(count_with_priority(prevp.push(pvs[k as int]), p as int) == if (pvs[k
                    as int] as int) == p as int {
                    count_with_priority(prevp, p as int) + 1
                } else {
                    count_with_priority(prevp, p as int)
                }) by {
                    reveal(Seq::filter);
                }
            }
            if pris[k] as u16 == p {
                if extractors[k].is_applicable(repo_dir) {
                    match extractors[k].extract_repo_information(repo_dir) {
                        Ok(info) => outcomes.push((pris[k], Some(info))),
                        Err(_) => outcomes.push((pris[k], None)),
                    }
                } else {
                    outcomes.push((pris[k], None));
                }
            }
            k += 1;
        }
        proof {
            assert(pvs.take(pvs.len() as int) =~= pvs);
            lemma_count_priority_split(pvs, p as int);
        }
        p += 1;
    }
    proof {
        lemma_count_priority_all(pvs);
    }
    outcomes
}

/// No priority lies below zero.
proof fn lemma_count_priority_zero(ps: Seq<u8>)
    ensures
        count_below_priority(ps, 0) == 0,
    decreases ps.len(),
{
    reveal(Seq::filter);
    if ps.len() > 0 {
        lemma_count_priority_zero(ps.drop_last());
    }
}

/// Drives the extractor scan: every extractor's outcome is gathered in
/// ascending priority order, keeping registration order among equal
/// priorities, and the fold of [`resolve_from_outcomes`] picks the last
/// success. With no extractor registered, nothing resolves.
pub fn resolve_repo_information<E: Extractor>(extractors: &Vec<E>, repo_dir: &String) -> (r: Option<
    RepoInformation,
>)
    ensures
        extractors@.len() == 0 ==> r is None,
{
    let outcomes = gather_outcomes(extractors, repo_dir);
    resolve_from_outcomes(&outcomes)
}

/// Law: extractor precedence. When one success carries a strictly higher
/// priority than every other success of the scan, it is the adopted
/// entry: a manifest-based extractor overrides the generic one whenever
/// both are applicable and both succeed.
pub proof fn lemma_extractor_precedence(outcomes: Seq<(u8, Option<RepoInformation>)>, m: int)
    requires
        0 <= m < outcomes.len(),
        outcomes[m].1 is Some,
        forall|j: int|
            0 <= j < outcomes.len() && j != m && (#[trigger] outcomes[j]).1 is Some
                ==> outcomes[j].0 < outcomes[m].0,
    ensures
        is_winner(outcomes, m),
        forall|i: int| #[trigger] is_winner(outcomes, i) ==> i == m,
{
    assert forall|i: int| #[trigger] is_winner(outcomes, i) implies i == m by {
        if i != m {
            assert(outcomes[i].0 < outcomes[m].0);
            assert(outcomes[m].0 < outcomes[i].0 || (outcomes[m].0 == outcomes[i].0 && m <= i));
        }
    }
}

} // verus!
