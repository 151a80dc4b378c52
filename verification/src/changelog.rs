//! Assembling the changelog document.
//!
//! The assembler walks the comparison ranges newest first and emits, per
//! range, a heading with a diff link and a date, then a "Bug Fixes" list
//! and a "Features" list, in that fixed order, each only when its bucket
//! is nonempty. The document is an ordered sequence of blocks; rendering
//! the blocks to text is the document builder's business, not ours.

use crate::commits::CommitRecord;
use crate::commits::CommitRecordView;
use crate::commits::classify_commits;
use crate::commits::commit_views;
use crate::commits::inline_link;
use crate::commits::pair_views;
use crate::commits::populate_changelog_from_commits;
use crate::commits::spec_commit_list;
use crate::commits::spec_features;
use crate::commits::spec_fixes;
use crate::commits::spec_inline_link;
use crate::extractors::RepoInformation;
use crate::github::github_link_for_range;
use crate::github::spec_link_for_range;
use crate::tags::strip_v;
use crate::tags::strip_v_prefix;
use crate::text::str_eq;
use crate::version::parse_version;
use crate::version::spec_parse_version;
use vstd::prelude::*;
use vstd::string::StringExecFns;

verus! {

/// One block of the assembled document.
#[derive(Clone, Debug, Eq, PartialEq)]
pub enum Block {
    Heading { level: usize, text: String },
    Paragraph { text: String },
    List { items: Vec<String> },
}

/// The block's mathematical value.
pub enum BlockView {
    Heading { level: int, text: Seq<char> },
    Paragraph { text: Seq<char> },
    List { items: Seq<Seq<char>> },
}

impl View for Block {
    type V = BlockView;

    open spec fn view(&self) -> BlockView {
        match self {
            Block::Heading { level, text } => BlockView::Heading {
                level: *level as int,
                text: text@,
            },
            Block::Paragraph { text } => BlockView::Paragraph { text: text@ },
            Block::List { items } => BlockView::List { items: items.deep_view() },
        }
    }
}

/// The assembled document: blocks in render order, nothing more.
#[derive(Clone, Debug, Eq, PartialEq)]
pub struct ChangelogDocument {
    pub blocks: Vec<Block>,
}

impl View for ChangelogDocument {
    type V = Seq<BlockView>;

    open spec fn view(&self) -> Seq<BlockView> {
        self.blocks@.map_values(|b: Block| b@)
    }
}

/// What the short name of a range's `to` end resolved to in the
/// version-control store.
#[derive(Clone, Copy, Debug, Eq, PartialEq, Structural)]
pub enum RefKind {
    /// A tag; its commit's timestamp dates the section.
    Tag,
    /// A branch; the working tip's section is dated with the current
    /// date.
    Branch,
    /// Anything else; the section carries no date.
    Other,
}

/// Everything the assembler needs of one comparison range: its two tag
/// names, what the `to` name resolved to, the timestamp of the `to`
/// commit (read when the reference is a tag), and the commits between the
/// two ends, in the order the store walks them.
pub struct RangeInput {
    pub from: String,
    pub to: String,
    pub ref_kind: RefKind,
    pub timestamp: i64,
    pub commits: Vec<CommitRecord>,
}

/// The range input's mathematical value.
pub struct RangeInputView {
    pub from: Seq<char>,
    pub to: Seq<char>,
    pub ref_kind: RefKind,
    pub timestamp: i64,
    pub commits: Seq<CommitRecordView>,
}

impl View for RangeInput {
    type V = RangeInputView;

    open spec fn view(&self) -> RangeInputView {
        RangeInputView {
            from: self.from@,
            to: self.to@,
            ref_kind: self.ref_kind,
            timestamp: self.timestamp,
            commits: commit_views(self.commits@),
        }
    }
}

/// The assembler's one failure: a range boundary that is neither the
/// `HEAD` sentinel nor a version, so no heading level exists for it.
#[derive(Clone, Debug, Eq, PartialEq)]
pub enum AssembleError {
    InvalidTag { tag: String },
}

/// The UTC calendar date, as `YYYY-MM-DD`, of a count of seconds since
/// the epoch; the empty sequence for counts outside the calendar's range.
pub uninterp spec fn date_str_of(seconds: i64) -> Seq<char>;

/// Relies on `chrono::DateTime::<Utc>::from_timestamp` and chrono's
/// `%Y-%m-%d` formatting: the UTC date of an epoch second count is a
/// function of the count alone. Counts that chrono's calendar cannot
/// hold give the empty string.
#[verifier::external_body]
fn format_utc_date(seconds: i64) -> (r: String)
    ensures
        r@ == date_str_of(seconds),
{
    match chrono::DateTime::<chrono::Utc>::from_timestamp(seconds, 0) {
        Some(t) => t.format("%Y-%m-%d").to_string(),
        None => String::new(),
    }
}

/// The heading level of a range's `to` end: the top level for the `HEAD`
/// sentinel and for versions whose patch component is zero, the
/// subordinate level for every other version, and nothing when the name,
/// stripped of its `v` prefix, is neither `HEAD` nor a version.
pub open spec fn spec_heading_level(to: Seq<char>) -> Option<int> {
    if strip_v(to) == "HEAD"@ {
        Some(1)
    } else {
        match spec_parse_version(strip_v(to)) {
            Some(v) => if v.patch == "0"@ {
                Some(1)
            } else {
                Some(2)
            },
            None => None,
        }
    }
}

/// Computes the heading level of a range's `to` end.
pub fn heading_level(to: &str) -> (r: Option<usize>)
    ensures
        match r {
            Some(l) => spec_heading_level(to@) == Some(l as int),
            None => spec_heading_level(to@) is None,
        },
{
    let stripped = strip_v_prefix(to);
    if str_eq(stripped, "HEAD") {
        return Some(1);
    }
    match parse_version(stripped) {
        Some(v) => {
            if str_eq(v.patch.as_str(), "0") {
                Some(1)
            } else {
                Some(2)
            }
        },
        None => None,
    }
}

/// Whether a range's section carries a date: the `to` reference is a
/// tag, or it is a branch and the `to` name is the `HEAD` sentinel.
pub open spec fn spec_date_resolved(rv: RangeInputView) -> bool {
    rv.ref_kind is Tag || (rv.ref_kind is Branch && rv.to == "HEAD"@)
}

/// The heading text of a range's section: the diff-comparison link,
/// labelled with the `to` name, with the resolved date appended in
/// parentheses when one was resolved. A tag is dated by its commit's
/// timestamp; the working tip is dated by the date of generation.
pub open spec fn spec_heading_text(
    rv: RangeInputView,
    owner: Seq<char>,
    repo: Seq<char>,
    now_ts: i64,
) -> Seq<char> {
    let link = spec_inline_link(rv.to, spec_link_for_range(rv.from, rv.to, owner, repo));
    let date = if rv.ref_kind is Tag {
        date_str_of(rv.timestamp)
    } else {
        date_str_of(now_ts)
    };
    if spec_date_resolved(rv) {
        link + " ("@ + date + ")"@
    } else {
        link
    }
}

/// One range's section: its heading, then the "Bug Fixes" subheading and
/// list when the bug-fix bucket is nonempty, then the "Features"
/// subheading and list when the feature bucket is nonempty, in that fixed
/// order.
pub open spec fn spec_range_section(
    rv: RangeInputView,
    owner: Seq<char>,
    repo: Seq<char>,
    now_ts: i64,
) -> Seq<BlockView> {
    let fixes = spec_fixes(rv.commits);
    let feats = spec_features(rv.commits);
    let head = seq![
        BlockView::Heading {
            level: spec_heading_level(rv.to).unwrap(),
            text: spec_heading_text(rv, owner, repo, now_ts),
        },
    ];
    let fix_part: Seq<BlockView> = if fixes.len() > 0 {
        seq![
            BlockView::Heading { level: 3, text: "Bug Fixes"@ },
            BlockView::List { items: spec_commit_list(fixes, owner, repo) },
        ]
    } else {
        Seq::<BlockView>::empty()
    };
    let feat_part: Seq<BlockView> = if feats.len() > 0 {
        seq![
            BlockView::Heading { level: 3, text: "Features"@ },
            BlockView::List { items: spec_commit_list(feats, owner, repo) },
        ]
    } else {
        Seq::<BlockView>::empty()
    };
    head + fix_part + feat_part
}

/// The sections of the first `n` ranges, newest first: the section of
/// the last range, then the sections of the ranges before it.
pub open spec fn spec_sections(
    ranges: Seq<RangeInputView>,
    owner: Seq<char>,
    repo: Seq<char>,
    now_ts: i64,
) -> Seq<BlockView>
    decreases ranges.len(),
{
    if ranges.len() == 0 {
        Seq::<BlockView>::empty()
    } else {
        spec_range_section(ranges.last(), owner, repo, now_ts) + spec_sections(
            ranges.drop_last(),
            owner,
            repo,
            now_ts,
        )
    }
}

/// The whole document: the title, the preliminary remark lines as
/// paragraphs, then the per-range sections, newest first.
pub open spec fn spec_document(
    ranges: Seq<RangeInputView>,
    owner: Seq<char>,
    repo: Seq<char>,
    remark: Seq<Seq<char>>,
    now_ts: i64,
) -> Seq<BlockView> {
    seq![BlockView::Heading { level: 1, text: "Changelog"@ }] + remark.map_values(
        |l: Seq<char>| BlockView::Paragraph { text: l },
    ) + spec_sections(ranges, owner, repo, now_ts)
}

/// The views of a range list.
pub open spec fn range_views(rs: Seq<RangeInput>) -> Seq<RangeInputView> {
    rs.map_values(|r: RangeInput| r@)
}

/// Assembles the changelog document for the resolved repository, the
/// given ranges (oldest first, as the pairing yields them; the document
/// lists them newest first), the preliminary remark lines and the
/// generation time. Fails exactly when some range's `to` end is neither
/// the `HEAD` sentinel nor a version; the error names the first such
/// boundary in rendering order.
pub fn assemble_changelog(
    repo_info: &RepoInformation,
    ranges: &Vec<RangeInput>,
    remark: &Vec<String>,
    now_ts: i64,
) -> (r: Result<ChangelogDocument, AssembleError>)
    ensures
        ({
            let rvs = range_views(ranges@);
            match r {
                Ok(doc) => {
                    &&& (forall|i: int|
                        0 <= i < rvs.len() ==> spec_heading_level((#[trigger] rvs[i]).to) is Some)
                    &&& doc@ == spec_document(
                        rvs,
                        repo_info.owner@,
                        repo_info.repo@,
                        remark.deep_view(),
                        now_ts,
                    )
                },
                Err(AssembleError::InvalidTag { tag }) => {
                    exists|j: int|
                        {
                            &&& 0 <= j < rvs.len()
                            &&& spec_heading_level((#[trigger] rvs[j]).to) is None
                            &&& tag@ == rvs[j].to
                            &&& forall|i: int|
                                j < i < rvs.len() ==> spec_heading_level(
                                    (#[trigger] rvs[i]).to,
                                ) is Some
                        }
                },
            }
        }),
{
    let ghost rvs = range_views(ranges@);
    let ghost owner = repo_info.owner@;
    let ghost repo = repo_info.repo@;
    let ghost rem = remark.deep_view();
    let mut blocks: Vec<Block> = Vec::new();
    blocks.push(Block::Heading { level: 1, text: String::from_str("Changelog") });
    let ghost remark_specs = rem.map_values(|l: Seq<char>| BlockView::Paragraph { text: l });
    proof {
        assert(blocks@.map_values(|b: Block| b@) =~= seq![
            BlockView::Heading { level: 1, text: "Changelog"@ },
        ] + remark_specs.take(0));
    }
    let mut i: usize = 0;
    while i < remark.len()
        invariant
            0 <= i <= remark.len(),
            rem == remark.deep_view(),
            rem.len() == remark.len(),
            remark_specs == rem.map_values(|l: Seq<char>| BlockView::Paragraph { text: l }),
            blocks@.map_values(|b: Block| b@) =~= seq![
                BlockView::Heading { level: 1, text: "Changelog"@ },
            ] + remark_specs.take(i as int),
        decreases remark.len() - i,
    {
        let ghost before = blocks@.map_values(|b: Block| b@);
        blocks.push(Block::Paragraph { text: remark[i].clone() });
        proof {
            assert(blocks@.map_values(|b: Block| b@) =~= before.push(
                BlockView::Paragraph { text: rem[i as int] },
            ));
            assert(remark_specs.take(i as int + 1) =~= remark_specs.take(i as int).push(
                remark_specs[i as int],
            ));
        }
        i += 1;
    }
    let ghost pre = seq![BlockView::Heading { level: 1, text: "Changelog"@ }] + remark_specs;
    proof {
        assert(remark_specs.take(rem.len() as int) =~= remark_specs);
        assert(blocks@.map_values(|b: Block| b@) =~= pre);
        assert(rvs.take(rvs.len() as int) =~= rvs);
    }
    let mut k: usize = ranges.len();
    while k > 0
        invariant
            0 <= k <= ranges.len(),
            rvs == range_views(ranges@),
            rvs.len() == ranges.len(),
            owner == repo_info.owner@,
            repo == repo_info.repo@,
            pre + spec_sections(rvs, owner, repo, now_ts) =~= blocks@.map_values(|b: Block| b@)
                + spec_sections(rvs.take(k as int), owner, repo, now_ts),
            forall|i: int|
                k <= i < rvs.len() ==> spec_heading_level((#[trigger] rvs[i]).to) is Some,
        decreases k,
    {
        k = k - 1;
        let rv = &ranges[k];
        let ghost rvv = rvs[k as int];
        proof {
            assert(rvv == rv@);
            assert(rvs.take(k as int + 1).drop_last() =~= rvs.take(k as int));
            assert(rvs.take(k as int + 1).last() == rvv);
        }
        let level = match heading_level(rv.to.as_str()) {
            Some(l) => l,
            None => {
                return Err(AssembleError::InvalidTag { tag: rv.to.clone() });
            },
        };
        let url = github_link_for_range(rv.from.as_str(), rv.to.as_str(), repo_info);
        let mut text = inline_link(rv.to.as_str(), url.as_str());
        let dated = match rv.ref_kind {
            RefKind::Tag => true,
            RefKind::Branch => str_eq(rv.to.as_str(), "HEAD"),
            RefKind::Other => false,
        };
        if dated {
            let d = match rv.ref_kind {
                RefKind::Tag => format_utc_date(rv.timestamp),
                _ => format_utc_date(now_ts),
            };
            text.append(" (");
            text.append(d.as_str());
            text.append(")");
        }
        proof {
            assert(text@ == spec_heading_text(rvv, owner, repo, now_ts));
        }
        let ghost before = blocks@.map_values(|b: Block| b@);
        blocks.push(Block::Heading { level, text });
        let (fixes, feats) = classify_commits(&rv.commits);
        proof {
            assert(pair_views(fixes@) == spec_fixes(rvv.commits));
            assert(pair_views(feats@) == spec_features(rvv.commits));
            assert(pair_views(fixes@).len() == fixes@.len());
            assert(pair_views(feats@).len() == feats@.len());
        }
        if fixes.len() > 0 {
            blocks.push(Block::Heading { level: 3, text: String::from_str("Bug Fixes") });
            let items = populate_changelog_from_commits(&fixes, repo_info);
            blocks.push(Block::List { items });
        }
        if feats.len() > 0 {
            blocks.push(Block::Heading { level: 3, text: String::from_str("Features") });
            let items = populate_changelog_from_commits(&feats, repo_info);
            blocks.push(Block::List { items });
        }
        proof {
            assert(blocks@.map_values(|b: Block| b@) =~= before + spec_range_section(
                rvv,
                owner,
                repo,
                now_ts,
            ));
            assert(spec_sections(rvs.take(k as int + 1), owner, repo, now_ts)
                =~= spec_range_section(rvv, owner, repo, now_ts) + spec_sections(
                rvs.take(k as int),
                owner,
                repo,
                now_ts,
            ));
            assert(pre + spec_sections(rvs, owner, repo, now_ts) =~= blocks@.map_values(
                |b: Block| b@,
            ) + spec_sections(rvs.take(k as int), owner, repo, now_ts));
        }
    }
    proof {
        assert(rvs.take(0) =~= Seq::<RangeInputView>::empty());
        assert(blocks@.map_values(|b: Block| b@) =~= pre + spec_sections(
            rvs,
            owner,
            repo,
            now_ts,
        ));
    }
    Ok(ChangelogDocument { blocks })
}

} // verus!
