use conventional_commits_changelog_generator::changelog::AssembleError;
use conventional_commits_changelog_generator::changelog::Block;
use conventional_commits_changelog_generator::changelog::RangeInput;
use conventional_commits_changelog_generator::changelog::RefKind;
use conventional_commits_changelog_generator::changelog::assemble_changelog;
use conventional_commits_changelog_generator::changelog::heading_level;
use conventional_commits_changelog_generator::commits::CommitRecord;
use conventional_commits_changelog_generator::commits::FooterEntry;
use conventional_commits_changelog_generator::commits::ParsedCommit;
use conventional_commits_changelog_generator::commits::classify_commits;
use conventional_commits_changelog_generator::commits::render_commit_line;
use conventional_commits_changelog_generator::extractors::RepoInformation;
use conventional_commits_changelog_generator::github::github_link_for_commit;
use conventional_commits_changelog_generator::github::github_link_for_issue;
use conventional_commits_changelog_generator::github::github_link_for_range;
use conventional_commits_changelog_generator::tags::pair_ranges;
use conventional_commits_changelog_generator::tags::resolve_tag_order;

fn acme() -> RepoInformation {
    RepoInformation {
        owner: "acme".to_string(),
        repo: "widget".to_string(),
    }
}

fn commit(message: &str, hash: &str, short: &str) -> CommitRecord {
    CommitRecord {
        message: message.to_string(),
        hash: hash.to_string(),
        short_hash: short.to_string(),
    }
}

#[test]
fn github_links_are_exact() {
    let info = acme();
    assert_eq!(
        github_link_for_range("v0.1.0", "v0.2.0", &info),
        "https://github.com/acme/widget/compare/v0.1.0...v0.2.0"
    );
    assert_eq!(
        github_link_for_commit("abcdef", &info),
        "https://github.com/acme/widget/commit/abcdef"
    );
    assert_eq!(
        github_link_for_issue("42", &info),
        "https://github.com/acme/widget/issues/42"
    );
}

#[test]
fn heading_level_for_patch_zero_is_top() {
    assert_eq!(heading_level("v1.2.0"), Some(1));
}

#[test]
fn heading_level_for_patch_release_is_subordinate() {
    assert_eq!(heading_level("v1.2.3"), Some(2));
}

#[test]
fn heading_level_for_head_is_top() {
    assert_eq!(heading_level("HEAD"), Some(1));
}

#[test]
fn heading_level_for_junk_is_missing() {
    assert_eq!(heading_level("nightly"), None);
}

#[test]
fn fix_with_scope_renders_bold_scope_and_hash_link() {
    let pc = ParsedCommit {
        ty: "fix".to_string(),
        scope: Some("core".to_string()),
        desc: "handle nil".to_string(),
        footer: vec![],
    };
    let c = commit("fix(core): handle nil", "deadbeef", "dead");
    let line = render_commit_line(&pc, &c, &acme());
    assert_eq!(
        line,
        "**core**: handle nil ([dead](https://github.com/acme/widget/commit/deadbeef))"
    );
}

#[test]
fn closes_footer_appends_issue_link() {
    let pc = ParsedCommit {
        ty: "fix".to_string(),
        scope: None,
        desc: "save".to_string(),
        footer: vec![
            FooterEntry {
                token: "Closes".to_string(),
                value: "42".to_string(),
            },
            FooterEntry {
                token: "Signed-off-by".to_string(),
                value: "someone".to_string(),
            },
        ],
    };
    let c = commit("fix: save", "cafe", "ca");
    let line = render_commit_line(&pc, &c, &acme());
    assert_eq!(
        line,
        "save ([ca](https://github.com/acme/widget/commit/cafe)) \
         , closes [#42](https://github.com/acme/widget/issues/42)"
    );
}

#[test]
fn footer_parsed_from_real_message() {
    let commits = vec![commit("fix: save\n\nSome body.\n\nFixes #123", "cafe", "ca")];
    let (fixes, feats) = classify_commits(&commits);
    assert_eq!(fixes.len(), 1);
    assert_eq!(feats.len(), 0);
    let pc = &fixes[0].1;
    assert_eq!(pc.desc, "save");
    assert_eq!(pc.footer.len(), 1);
    assert_eq!(pc.footer[0].token, "Fixes");
    assert_eq!(pc.footer[0].value, "123");
    let line = render_commit_line(pc, &fixes[0].0, &acme());
    assert!(line.ends_with(", closes [#123](https://github.com/acme/widget/issues/123)"));
}

#[test]
fn messages_the_parser_cannot_take_are_dropped() {
    // Shapes on which the outside parser's scanners would subtract below
    // zero: a message ending right after the blank-line separator, with a
    // further blank line, exactly on a footer separator, or opening the
    // body section with an extra blank line before a footer.
    let commits = vec![
        commit("feat: x\n\n", "1111", "11"),
        commit("fix: y\n\n\n", "2222", "22"),
        commit("fix: y\n\nFixes: ", "3333", "33"),
        commit("fix: y\n\nFixes #", "4444", "44"),
        commit("fix: y\n\n\nFixes #1", "5555", "55"),
    ];
    let (fixes, feats) = classify_commits(&commits);
    assert_eq!(fixes.len(), 0);
    assert_eq!(feats.len(), 0);
}

#[test]
fn trailing_newline_messages_still_classify() {
    // The usual store shape: one line feed closes the message; a body
    // followed by a blank line is fine too.
    let commits = vec![
        commit("fix: y\n", "1111", "11"),
        commit("feat: z\n\nSome body.\n", "2222", "22"),
    ];
    let (fixes, feats) = classify_commits(&commits);
    assert_eq!(fixes.len(), 1);
    assert_eq!(fixes[0].1.desc, "y");
    assert_eq!(feats.len(), 1);
    assert_eq!(feats[0].1.desc, "z");
}

#[test]
fn classification_buckets_fix_and_feat_and_drops_the_rest() {
    let commits = vec![
        commit("fix(api): handle nil", "1111", "11"),
        commit("feat: add export", "2222", "22"),
        commit("chore: bump deps", "3333", "33"),
        commit("not a conventional message", "4444", "44"),
    ];
    let (fixes, feats) = classify_commits(&commits);
    assert_eq!(fixes.len(), 1);
    assert_eq!(fixes[0].0.hash, "1111");
    assert_eq!(fixes[0].1.ty, "fix");
    assert_eq!(fixes[0].1.scope, Some("api".to_string()));
    assert_eq!(fixes[0].1.desc, "handle nil");
    assert_eq!(feats.len(), 1);
    assert_eq!(feats[0].0.hash, "2222");
    assert_eq!(feats[0].1.ty, "feat");
}

#[test]
fn assembled_document_lists_newest_range_first() {
    let info = acme();
    let order = resolve_tag_order(&vec!["v0.2.0".to_string(), "v0.1.0".to_string()]);
    let pairs = pair_ranges(&order);
    assert_eq!(
        pairs,
        vec![
            ("v0.1.0".to_string(), "v0.2.0".to_string()),
            ("v0.2.0".to_string(), "HEAD".to_string()),
        ]
    );
    let ranges = vec![
        RangeInput {
            from: pairs[0].0.clone(),
            to: pairs[0].1.clone(),
            ref_kind: RefKind::Tag,
            timestamp: 1600000000,
            commits: vec![
                commit("fix(api): handle nil", "1111", "11"),
                commit("feat: add export", "2222", "22"),
            ],
        },
        RangeInput {
            from: pairs[1].0.clone(),
            to: pairs[1].1.clone(),
            ref_kind: RefKind::Branch,
            timestamp: 0,
            commits: vec![],
        },
    ];
    let remark = vec!["All notable changes are listed here.".to_string()];
    let doc = assemble_changelog(&info, &ranges, &remark, 0).expect("should assemble");
    let blocks = doc.blocks;
    assert_eq!(blocks.len(), 8);
    assert_eq!(
        blocks[0],
        Block::Heading {
            level: 1,
            text: "Changelog".to_string()
        }
    );
    assert_eq!(
        blocks[1],
        Block::Paragraph {
            text: "All notable changes are listed here.".to_string()
        }
    );
    // The working-tip section comes first and is dated at generation time.
    assert_eq!(
        blocks[2],
        Block::Heading {
            level: 1,
            text: "[HEAD](https://github.com/acme/widget/compare/v0.2.0...HEAD) (1970-01-01)"
                .to_string()
        }
    );
    // The released range follows, dated by its tag's commit.
    assert_eq!(
        blocks[3],
        Block::Heading {
            level: 1,
            text: "[v0.2.0](https://github.com/acme/widget/compare/v0.1.0...v0.2.0) (2020-09-13)"
                .to_string()
        }
    );
    assert_eq!(
        blocks[4],
        Block::Heading {
            level: 3,
            text: "Bug Fixes".to_string()
        }
    );
    assert_eq!(
        blocks[5],
        Block::List {
            items: vec![
                "**api**: handle nil ([11](https://github.com/acme/widget/commit/1111))"
                    .to_string()
            ]
        }
    );
    assert_eq!(
        blocks[6],
        Block::Heading {
            level: 3,
            text: "Features".to_string()
        }
    );
    assert_eq!(
        blocks[7],
        Block::List {
            items: vec![
                "add export ([22](https://github.com/acme/widget/commit/2222))".to_string()
            ]
        }
    );
}

#[test]
fn patch_release_section_is_subordinate_and_undated_refs_carry_no_date() {
    let info = acme();
    let ranges = vec![RangeInput {
        from: "v1.2.2".to_string(),
        to: "v1.2.3".to_string(),
        ref_kind: RefKind::Other,
        timestamp: 0,
        commits: vec![],
    }];
    let doc = assemble_changelog(&info, &ranges, &vec![], 0).expect("should assemble");
    assert_eq!(doc.blocks.len(), 2);
    assert_eq!(
        doc.blocks[1],
        Block::Heading {
            level: 2,
            text: "[v1.2.3](https://github.com/acme/widget/compare/v1.2.2...v1.2.3)".to_string()
        }
    );
}

#[test]
fn no_ranges_yield_title_and_remark_only() {
    let doc = assemble_changelog(&acme(), &vec![], &vec!["remark".to_string()], 0)
        .expect("should assemble");
    assert_eq!(
        doc.blocks,
        vec![
            Block::Heading {
                level: 1,
                text: "Changelog".to_string()
            },
            Block::Paragraph {
                text: "remark".to_string()
            },
        ]
    );
}

#[test]
fn unparseable_boundary_fails_assembly() {
    let info = acme();
    let ranges = vec![RangeInput {
        from: "v1.0.0".to_string(),
        to: "nightly".to_string(),
        ref_kind: RefKind::Other,
        timestamp: 0,
        commits: vec![],
    }];
    let r = assemble_changelog(&info, &ranges, &vec![], 0);
    assert_eq!(
        r.unwrap_err(),
        AssembleError::InvalidTag {
            tag: "nightly".to_string()
        }
    );
}
