//! Classifying commits and rendering one changelog line per commit.
//!
//! A raw commit message is parsed as a Conventional Commit; messages that
//! do not parse are silently dropped. Parsed commits of type `fix` land
//! in the bug-fix bucket, those of type `feat` in the feature bucket, and
//! every other type is rendered nowhere.

use crate::extractors::RepoInformation;
use crate::github::github_link_for_commit;
use crate::github::github_link_for_issue;
use crate::github::spec_link_for_commit;
use crate::github::spec_link_for_issue;
use crate::text::str_eq;
use vstd::prelude::*;
use vstd::string::StringExecFns;

verus! {

/// One footer line of a parsed commit: its token and its value.
pub struct FooterEntry {
    pub token: String,
    pub value: String,
}

/// The footer's mathematical value.
pub struct FooterView {
    pub token: Seq<char>,
    pub value: Seq<char>,
}

impl View for FooterEntry {
    type V = FooterView;

    open spec fn view(&self) -> FooterView {
        FooterView { token: self.token@, value: self.value@ }
    }
}

/// A commit message read as a Conventional Commit: its type, optional
/// scope, description and footers.
pub struct ParsedCommit {
    pub ty: String,
    pub scope: Option<String>,
    pub desc: String,
    pub footer: Vec<FooterEntry>,
}

/// The parsed commit's mathematical value.
pub struct ParsedCommitView {
    pub ty: Seq<char>,
    pub scope: Option<Seq<char>>,
    pub desc: Seq<char>,
    pub footer: Seq<FooterView>,
}

impl View for ParsedCommit {
    type V = ParsedCommitView;

    open spec fn view(&self) -> ParsedCommitView {
        ParsedCommitView {
            ty: self.ty@,
            scope: match self.scope {
                Some(s) => Some(s@),
                None => None,
            },
            desc: self.desc@,
            footer: self.footer@.map_values(|f: FooterEntry| f@),
        }
    }
}

/// One commit as the version-control store hands it over: its raw
/// message, its full hash and its abbreviated hash.
pub struct CommitRecord {
    pub message: String,
    pub hash: String,
    pub short_hash: String,
}

/// The commit record's mathematical value.
pub struct CommitRecordView {
    pub message: Seq<char>,
    pub hash: Seq<char>,
    pub short_hash: Seq<char>,
}

impl View for CommitRecord {
    type V = CommitRecordView;

    open spec fn view(&self) -> CommitRecordView {
        CommitRecordView { message: self.message@, hash: self.hash@, short_hash: self.short_hash@ }
    }
}

/// What parsing a commit message yields: nothing when the message is no
/// Conventional Commit, else its type, scope, description and footers.
pub uninterp spec fn parsed_commit_of(msg: Seq<char>) -> Option<ParsedCommitView>;

/// The length of the line ending at position `i`: one for a line feed,
/// two for a carriage return followed by a line feed, zero for anything
/// else.
pub open spec fn le_len_at(s: Seq<char>, i: int) -> int {
    if 0 <= i < s.len() && s[i] == '\n' {
        1
    } else if 0 <= i && i + 1 < s.len() && s[i] == '\r' && s[i + 1] == '\n' {
        2
    } else {
        0
    }
}

/// A section break at `i` the parser's body scanner cannot take: two
/// line endings followed by the end of the message or by a third line
/// ending.
pub open spec fn risky_break_at(s: Seq<char>, i: int) -> bool {
    let a = le_len_at(s, i);
    let b = le_len_at(s, i + a);
    &&& a > 0
    &&& b > 0
    &&& (i + a + b == s.len() || le_len_at(s, i + a + b) > 0)
}

pub open spec fn is_break_char(c: char) -> bool {
    c == '\n' || c == '\r'
}

/// A shape of message the outside parser can take. Its body and
/// footer-value scanners subtract below zero — an abort under overflow
/// checks — when the message ends right after the blank-line section
/// separator or exactly on a footer separator (a trailing space or `#`),
/// or when an extra blank line opens the body section; the same shapes
/// fail to parse when the subtraction wraps instead. This predicate
/// conservatively excludes every such shape (and a few harmless
/// neighbours, such as a message ending in a bare space); excluded
/// messages are kept away from the parser and dropped as unparseable.
pub open spec fn parser_safe_message(s: Seq<char>) -> bool {
    &&& s.len() > 0
    &&& s.last() != ' '
    &&& s.last() != '#'
    &&& forall|i: int|
        0 <= i < s.len() && is_break_char(#[trigger] s[i]) && (forall|j: int|
            0 <= j < i ==> !is_break_char(#[trigger] s[j])) ==> !risky_break_at(s, i)
}

/// The length of the line ending at position `i`, read off the string.
fn le_len_exec(s: &str, i: usize) -> (r: usize)
    ensures
        r == le_len_at(s@, i as int),
{
    let n = s.unicode_len();
    if i < n && s.get_char(i) == '\n' {
        1
    } else if i < n && i + 1 < n && s.get_char(i) == '\r' && s.get_char(i + 1) == '\n' {
        2
    } else {
        0
    }
}

/// Checks that a message has a shape the outside parser can take.
fn check_parser_safe(s: &str) -> (r: bool)
    ensures
        r == parser_safe_message(s@),
{
    let n = s.unicode_len();
    if n == 0 {
        return false;
    }
    let last = s.get_char(n - 1);
    proof {
        assert(s@.last() == s@[n - 1]);
    }
    if last == ' ' || last == '#' {
        return false;
    }
    let mut i: usize = 0;
    while i < n
        invariant
            0 <= i <= n,
            n == s@.len(),
            n > 0,
            s@.last() != ' ',
            s@.last() != '#',
            forall|j: int| 0 <= j < i ==> !is_break_char(#[trigger] s@[j]),
        decreases n - i,
    {
        let c = s.get_char(i);
        if c == '\n' || c == '\r' {
            let a = le_len_exec(s, i);
            let mut risky = false;
            if a > 0 {
                proof {
                    assert(i + a <= n);
                }
                let b = le_len_exec(s, i + a);
                if b > 0 {
                    proof {
                        assert(i + a + b <= n);
                    }
                    risky = i + a + b == n || le_len_exec(s, i + a + b) > 0;
                }
            }
            proof {
                assert(risky == risky_break_at(s@, i as int));
                if !risky {
                    assert forall|k: int|
                        0 <= k < s@.len() && is_break_char(#[trigger] s@[k]) && (forall|j: int|
                            0 <= j < k ==> !is_break_char(#[trigger] s@[j])) implies !risky_break_at(
                        s@,
                        k,
                    ) by {
                        assert(k == i as int);
                    }
                    assert(parser_safe_message(s@));
                } else {
                    assert(is_break_char(s@[i as int]));
                    assert(!parser_safe_message(s@));
                }
            }
            return !risky;
        }
        i += 1;
    }
    true
}

/// Relies on `conventional_commits_parser::parse_commit_msg`: whether a
/// message parses, and the type, scope, description and footers it
/// parses to, are functions of the message alone. The parser's scanners
/// abort on certain inputs; [`parser_safe_message`] conservatively
/// excludes every such shape, so the parser sees only shapes it can
/// take.
#[verifier::external_body]
fn parse_commit_trusted(msg: &str) -> (r: Option<ParsedCommit>)
    requires
        parser_safe_message(msg@),
    ensures
        r is Some <==> parsed_commit_of(msg@) is Some,
        r is Some ==> r.unwrap()@ == parsed_commit_of(msg@).unwrap(),
{
    match conventional_commits_parser::parse_commit_msg(msg) {
        Ok(c) => Some(ParsedCommit {
            ty: c.ty.to_string(),
            scope: c.scope.map(|s| s.to_string()),
            desc: c.desc.to_string(),
            footer: c.footer.iter().map(
                |f| FooterEntry { token: f.token.to_string(), value: f.value.to_string() },
            ).collect(),
        }),
        Err(_) => None,
    }
}

/// What classification reads out of a message: its parse when its shape
/// is one the parser can take, nothing otherwise.
pub open spec fn commit_parse_of(msg: Seq<char>) -> Option<ParsedCommitView> {
    if parser_safe_message(msg) {
        parsed_commit_of(msg)
    } else {
        None
    }
}

/// Parses a commit message, guarding the outside parser against the
/// shapes it cannot take.
pub(crate) fn parse_commit_message(msg: &str) -> (r: Option<ParsedCommit>)
    ensures
        r is Some <==> commit_parse_of(msg@) is Some,
        r is Some ==> r.unwrap()@ == commit_parse_of(msg@).unwrap(),
{
    if !check_parser_safe(msg) {
        return None;
    }
    parse_commit_trusted(msg)
}

/// Bold text as the document builder renders it.
pub open spec fn spec_bold(s: Seq<char>) -> Seq<char> {
    "**"@ + s + "**"@
}

/// An inlined link as the document builder renders it.
pub open spec fn spec_inline_link(text: Seq<char>, url: Seq<char>) -> Seq<char> {
    "["@ + text + "]("@ + url + ")"@
}

/// Relies on `markdown_composer::transforms::Bold` for strings: the bold
/// transform wraps the text in double asterisks.
#[verifier::external_body]
pub(crate) fn bold(s: &str) -> (r: String)
    ensures
        r@ == spec_bold(s@),
{
    markdown_composer::transforms::Bold::to_bold(&s)
}

/// Relies on `markdown_composer::types::link::Link`: an inlined,
/// non-footer link renders as the text in brackets followed by the URL in
/// parentheses.
#[verifier::external_body]
pub(crate) fn inline_link(text: &str, url: &str) -> (r: String)
    ensures
        r@ == spec_inline_link(text@, url@),
{
    markdown_composer::types::link::Link::from(text, url, false, true).to_string()
}

/// The fragment one footer appends to a changelog line: a rendered
/// issue-reference link, preceded by `, closes`, for each footer whose
/// token is exactly `Fixes` or `Closes`; nothing for any other footer.
pub open spec fn spec_footer_fragment(f: FooterView, owner: Seq<char>, repo: Seq<char>) -> Seq<
    char,
> {
    if f.token == "Fixes"@ || f.token == "Closes"@ {
        " "@ + ", closes "@ + spec_inline_link(
            "#"@ + f.value,
            spec_link_for_issue(f.value, owner, repo),
        )
    } else {
        Seq::<char>::empty()
    }
}

/// Every footer fragment of a commit, in footer order, space-joined onto
/// the line.
pub open spec fn spec_footer_additions(
    fs: Seq<FooterView>,
    owner: Seq<char>,
    repo: Seq<char>,
) -> Seq<char>
    decreases fs.len(),
{
    if fs.len() == 0 {
        Seq::<char>::empty()
    } else {
        spec_footer_additions(fs.drop_last(), owner, repo) + spec_footer_fragment(
            fs.last(),
            owner,
            repo,
        )
    }
}

/// One rendered changelog line: the description, preceded by the bold
/// scope when one is present, followed by the short-hash link and by one
/// fragment per `Fixes`/`Closes` footer.
pub open spec fn spec_commit_line(
    pc: ParsedCommitView,
    c: CommitRecordView,
    owner: Seq<char>,
    repo: Seq<char>,
) -> Seq<char> {
    let base = match pc.scope {
        Some(sc) => spec_bold(sc) + ": "@ + pc.desc,
        None => pc.desc,
    };
    let hash_link = spec_inline_link(c.short_hash, spec_link_for_commit(c.hash, owner, repo));
    base + " "@ + "("@ + hash_link + ")"@ + spec_footer_additions(pc.footer, owner, repo)
}

/// Renders one classified commit as its changelog line.
pub fn render_commit_line(pc: &ParsedCommit, commit: &CommitRecord, info: &RepoInformation) -> (r:
    String)
    ensures
        r@ == spec_commit_line(pc@, commit@, info.owner@, info.repo@),
{
    let mut item: String = match &pc.scope {
        Some(sc) => {
            let mut s = bold(sc.as_str());
            s.append(": ");
            s.append(pc.desc.as_str());
            s
        },
        None => pc.desc.clone(),
    };
    let hash_url = github_link_for_commit(commit.hash.as_str(), info);
    let hash_link = inline_link(commit.short_hash.as_str(), hash_url.as_str());
    item.append(" ");
    item.append("(");
    item.append(hash_link.as_str());
    item.append(")");
    let ghost head = item@;
    proof {
        assert(pc@.footer.take(0) =~= Seq::<FooterView>::empty());
    }
    let mut i: usize = 0;
    while i < pc.footer.len()
        invariant
            0 <= i <= pc.footer.len(),
            pc@.footer.len() == pc.footer.len(),
            item@ == head + spec_footer_additions(
                pc@.footer.take(i as int),
                info.owner@,
                info.repo@,
            ),
        decreases pc.footer.len() - i,
    {
        let f = &pc.footer[i];
        proof {
            assert(pc@.footer[i as int] == f@);
            assert(pc@.footer.take(i as int + 1).drop_last() =~= pc@.footer.take(i as int));
            assert(pc@.footer.take(i as int + 1).last() == f@);
        }
        if str_eq(f.token.as_str(), "Fixes") || str_eq(f.token.as_str(), "Closes") {
            let mut text = String::from_str("#");
            text.append(f.value.as_str());
            let issue_url = github_link_for_issue(f.value.as_str(), info);
            let issue_link = inline_link(text.as_str(), issue_url.as_str());
            item.append(" ");
            item.append(", closes ");
            item.append(issue_link.as_str());
        }
        i += 1;
    }
    proof {
        assert(pc@.footer.take(pc@.footer.len() as int) =~= pc@.footer);
    }
    item
}

/// The bug-fix bucket: each commit whose message parses with type `fix`,
/// beside its parse, in the order the store returned the commits.
pub open spec fn spec_fixes(cs: Seq<CommitRecordView>) -> Seq<(CommitRecordView, ParsedCommitView)> {
    cs.filter_map(
        |c: CommitRecordView|
            {
                let p = commit_parse_of(c.message);
                if p is Some && p.unwrap().ty == "fix"@ {
                    Some((c, p.unwrap()))
                } else {
                    None
                }
            },
    )
}

/// The feature bucket: each commit whose message parses with type
/// `feat`, beside its parse, in the order the store returned the commits.
pub open spec fn spec_features(cs: Seq<CommitRecordView>) -> Seq<
    (CommitRecordView, ParsedCommitView),
> {
    cs.filter_map(
        |c: CommitRecordView|
            {
                let p = commit_parse_of(c.message);
                if p is Some && p.unwrap().ty == "feat"@ {
                    Some((c, p.unwrap()))
                } else {
                    None
                }
            },
    )
}

/// The views of a commit list.
pub open spec fn commit_views(cs: Seq<CommitRecord>) -> Seq<CommitRecordView> {
    cs.map_values(|c: CommitRecord| c@)
}

/// The views of a classified commit list.
pub open spec fn pair_views(ps: Seq<(CommitRecord, ParsedCommit)>) -> Seq<
    (CommitRecordView, ParsedCommitView),
> {
    ps.map_values(|p: (CommitRecord, ParsedCommit)| (p.0@, p.1@))
}

/// Partitions commits into the bug-fix and feature buckets. Messages
/// that fail to parse, and parsed types other than `fix` and `feat`, are
/// dropped.
pub fn classify_commits(commits: &Vec<CommitRecord>) -> (r: (
    Vec<(CommitRecord, ParsedCommit)>,
    Vec<(CommitRecord, ParsedCommit)>,
))
    ensures
        pair_views(r.0@) == spec_fixes(commit_views(commits@)),
        pair_views(r.1@) == spec_features(commit_views(commits@)),
{
    let ghost cvs = commit_views(commits@);
    let mut fixes: Vec<(CommitRecord, ParsedCommit)> = Vec::new();
    let mut feats: Vec<(CommitRecord, ParsedCommit)> = Vec::new();
    let mut i: usize = 0;
    proof {
        assert(cvs.take(0) =~= Seq::<CommitRecordView>::empty());
        assert(pair_views(fixes@) =~= spec_fixes(cvs.take(0)));
        assert(pair_views(feats@) =~= spec_features(cvs.take(0)));
    }
    while i < commits.len()
        invariant
            0 <= i <= commits.len(),
            cvs == commit_views(commits@),
            cvs.len() == commits.len(),
            pair_views(fixes@) == spec_fixes(cvs.take(i as int)),
            pair_views(feats@) == spec_features(cvs.take(i as int)),
        decreases commits.len() - i,
    {
        let c = &commits[i];
        let ghost cv = cvs[i as int];
        proof {
            assert(cv == c@);
            assert(cvs.take(i as int + 1).drop_last() =~= cvs.take(i as int));
            assert(cvs.take(i as int + 1).last() == cv);
        }
        let ghost old_fixes = fixes@;
        let ghost old_feats = feats@;
        match parse_commit_message(c.message.as_str()) {
            Some(p) => {
                let is_fix = str_eq(p.ty.as_str(), "fix");
                let is_feat = str_eq(p.ty.as_str(), "feat");
                let record = CommitRecord {
                    message: c.message.clone(),
                    hash: c.hash.clone(),
                    short_hash: c.short_hash.clone(),
                };
                proof {
                    assert(record@ == cv);
                }
                if is_fix {
                    fixes.push((record, p));
                    proof {
                        assert(pair_views(fixes@) =~= pair_views(old_fixes).push(
                            (cv, commit_parse_of(cv.message).unwrap()),
                        ));
                    }
                } else if is_feat {
                    feats.push((record, p));
                    proof {
                        assert(pair_views(feats@) =~= pair_views(old_feats).push(
                            (cv, commit_parse_of(cv.message).unwrap()),
                        ));
                    }
                }
            },
            None => {},
        }
        proof {
            reveal_strlit("fix");
            reveal_strlit("feat");
            assert("fix"@.len() == 3 && "feat"@.len() == 4);
            lemma_filter_map_step(cvs, i as int);
            assert(pair_views(fixes@) == spec_fixes(cvs.take(i as int + 1)));
            assert(pair_views(feats@) == spec_features(cvs.take(i as int + 1)));
        }
        i += 1;
    }
    proof {
        assert(cvs.take(cvs.len() as int) =~= cvs);
    }
    (fixes, feats)
}

/// One classification step: the buckets of a prefix extended by one
/// commit are the buckets of the prefix, with the commit appended to the
/// bucket its parsed type names, if any.
proof fn lemma_filter_map_step(cvs: Seq<CommitRecordView>, i: int)
    requires
        0 <= i < cvs.len(),
    ensures
        ({
            let p = commit_parse_of(cvs[i].message);
            &&& spec_fixes(cvs.take(i + 1)) == if p is Some && p.unwrap().ty == "fix"@ {
                spec_fixes(cvs.take(i)).push((cvs[i], p.unwrap()))
            } else {
                spec_fixes(cvs.take(i))
            }
            &&& spec_features(cvs.take(i + 1)) == if p is Some && p.unwrap().ty == "feat"@ {
                spec_features(cvs.take(i)).push((cvs[i], p.unwrap()))
            } else {
                spec_features(cvs.take(i))
            }
        }),
{
    reveal(Seq::filter_map);
    assert(cvs.take(i + 1).drop_last() =~= cvs.take(i));
    assert(cvs.take(i + 1).last() == cvs[i]);
}

/// The rendered lines of one bucket, one per classified commit, in
/// order.
pub open spec fn spec_commit_list(
    items: Seq<(CommitRecordView, ParsedCommitView)>,
    owner: Seq<char>,
    repo: Seq<char>,
) -> Seq<Seq<char>> {
    items.map_values(|it: (CommitRecordView, ParsedCommitView)| spec_commit_line(it.1, it.0, owner, repo))
}

/// Renders every commit of one bucket as its changelog line, in order.
pub fn populate_changelog_from_commits(
    commits: &Vec<(CommitRecord, ParsedCommit)>,
    repo_info: &RepoInformation,
) -> (r: Vec<String>)
    ensures
        r.deep_view() == spec_commit_list(pair_views(commits@), repo_info.owner@, repo_info.repo@),
{
    let ghost pvs = pair_views(commits@);
    let ghost target = spec_commit_list(pvs, repo_info.owner@, repo_info.repo@);
    let mut r: Vec<String> = Vec::new();
    let mut i: usize = 0;
    proof {
        assert(r.deep_view() =~= target.take(0));
    }
    while i < commits.len()
        invariant
            0 <= i <= commits.len(),
            pvs == pair_views(commits@),
            target == spec_commit_list(pvs, repo_info.owner@, repo_info.repo@),
            pvs.len() == commits.len(),
            target.len() == commits.len(),
            r.deep_view() =~= target.take(i as int),
        decreases commits.len() - i,
    {
        let ghost before = r.deep_view();
        let line = render_commit_line(&commits[i].1, &commits[i].0, repo_info);
        proof {
            assert(pvs[i as int] == (commits@[i as int].0@, commits@[i as int].1@));
            assert(target[i as int] == spec_commit_line(
                commits@[i as int].1@,
                commits@[i as int].0@,
                repo_info.owner@,
                repo_info.repo@,
            ));
        }
        r.push(line);
        proof {
            assert(r.deep_view() =~= before.push(target[i as int]));
            assert(target.take(i as int + 1) =~= target.take(i as int).push(target[i as int]));
        }
        i += 1;
    }
    proof {
        assert(target.take(target.len() as int) =~= target);
    }
    r
}

} // verus!
