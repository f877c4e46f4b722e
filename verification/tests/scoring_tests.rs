use docs_sentry::audit::{
    audit_fetch_error, audit_repo, recommended_section_names, required_section_names, sort_audits,
    tally_audits, AuditStatus, RepoAudit,
};
use docs_sentry::github::RepoMetadata;

fn repo(name: &str) -> RepoMetadata {
    RepoMetadata { name: name.to_string(), is_private: false, description: String::new() }
}

#[test]
fn status_labels() {
    assert_eq!(AuditStatus::Strong.as_str(), "strong");
    assert_eq!(AuditStatus::NeedsWork.as_str(), "needs-work");
    assert_eq!(AuditStatus::Weak.as_str(), "weak");
    assert_eq!(AuditStatus::MissingReadme.as_str(), "missing-readme");
    assert_eq!(AuditStatus::FetchError.as_str(), "fetch-error");
}

#[test]
fn section_name_lists() {
    assert_eq!(required_section_names(), vec!["Features", "Quick Start", "Architecture", "License"]);
    assert_eq!(
        recommended_section_names(),
        vec!["Tech Stack", "Usage", "Run Tests", "Deploy", "Centered Hero", "Agent Header"]
    );
}

#[test]
fn missing_readme_lists_every_section() {
    let audit = audit_repo(&repo("empty"), None, 70, true);
    assert_eq!(audit.repo, repo("empty"));
    assert_eq!(audit.score, 0);
    assert!(!audit.has_readme);
    assert_eq!(audit.missing_required, required_section_names());
    assert_eq!(audit.missing_recommended, recommended_section_names());
    assert_eq!(audit.notes, vec!["README file is missing.".to_string()]);
}

#[test]
fn required_sections_only_score_sixty_two() {
    let readme = "## Features\n## Quick Start\n## Architecture\n## License\n";
    let audit = audit_repo(&repo("a"), Some(readme), 70, false);
    assert_eq!(audit.score, 62);
    assert_eq!(audit.status, AuditStatus::NeedsWork);
    assert!(audit.missing_required.is_empty());
    assert_eq!(
        audit.missing_recommended,
        vec!["Tech Stack", "Usage", "Run Tests", "Deploy", "Centered Hero", "Agent Header"]
    );
    assert_eq!(audit.notes, vec!["Below target score (62 < 70).".to_string()]);
}

#[test]
fn matching_ignores_case_and_accepts_deeper_headings() {
    let upper = audit_repo(&repo("a"), Some("### FEATURES\n## GETTING STARTED"), 0, false);
    let lower = audit_repo(&repo("a"), Some("### features\n## getting started"), 0, false);
    assert_eq!(upper.score, 34);
    assert_eq!(upper, lower);
    assert!(upper.notes.is_empty());
}

#[test]
fn strict_mode_penalises_missing_required_sections() {
    let readme = "## Features\n## Tech Stack\n## Usage\n";
    let lenient = audit_repo(&repo("a"), Some(readme), 50, false);
    let strict = audit_repo(&repo("a"), Some(readme), 50, true);
    assert_eq!(lenient.score, 36);
    assert_eq!(strict.score, 21);
    assert_eq!(strict.status, AuditStatus::Weak);
    assert_eq!(strict.missing_required, vec!["Quick Start", "Architecture", "License"]);
    assert_eq!(
        strict.notes,
        vec![
            "Below target score (21 < 50).".to_string(),
            "Strict mode penalty applied due to missing required sections.".to_string(),
        ]
    );
}

#[test]
fn strict_penalty_stops_at_zero() {
    let audit = audit_repo(&repo("a"), Some("<p align=\"center\">"), 0, true);
    assert_eq!(audit.score, 0);
    assert_eq!(audit.status, AuditStatus::Weak);
}

#[test]
fn tier_boundaries() {
    // 18 + 16 + 14 + 14 + 10 + 8 + 3 = 83
    let needs = "## features\n## quick start\n## architecture\n## license\n## tech stack\n## usage\n<p align=\"center\">";
    assert_eq!(audit_repo(&repo("a"), Some(needs), 0, false).score, 83);
    assert_eq!(audit_repo(&repo("a"), Some(needs), 0, false).status, AuditStatus::NeedsWork);
    // 83 + 8 = 91
    let strong = "## features\n## quick start\n## architecture\n## license\n## tech stack\n## usage\n<p align=\"center\">\n## testing";
    assert_eq!(audit_repo(&repo("a"), Some(strong), 0, false).status, AuditStatus::Strong);
    // 18 + 16 + 14 + 10 = 58
    let weak = "## features\n## quick start\n## architecture\n## tech stack";
    assert_eq!(audit_repo(&repo("a"), Some(weak), 0, false).score, 58);
    assert_eq!(audit_repo(&repo("a"), Some(weak), 0, false).status, AuditStatus::Weak);
    // 18 + 16 + 14 + 14 = 62
    let edge = "## features\n## quick start\n## architecture\n## license";
    assert_eq!(audit_repo(&repo("a"), Some(edge), 0, false).status, AuditStatus::NeedsWork);
}

#[test]
fn fetch_error_is_not_a_missing_readme() {
    let audit = audit_fetch_error(&repo("x"), "Unable to fetch README for 'o/x': boom", 70);
    assert_eq!(audit.status, AuditStatus::FetchError);
    assert_eq!(audit.status.as_str(), "fetch-error");
    assert_eq!(audit.score, 0);
    assert!(!audit.has_readme);
    assert!(audit.missing_required.is_empty());
    assert!(audit.missing_recommended.is_empty());
    assert_eq!(
        audit.notes,
        vec![
            "Unable to fetch README for 'o/x': boom".to_string(),
            "Below target score (0 < 70).".to_string(),
        ]
    );
    let without_target = audit_fetch_error(&repo("x"), "boom", 0);
    assert_eq!(without_target.notes, vec!["boom".to_string()]);
}

fn scored(name: &str, score: u8, description: &str) -> RepoAudit {
    RepoAudit {
        repo: RepoMetadata { name: name.to_string(), is_private: false, description: description.to_string() },
        score,
        status: AuditStatus::Weak,
        has_readme: true,
        missing_required: Vec::new(),
        missing_recommended: Vec::new(),
        notes: Vec::new(),
    }
}

#[test]
fn sorts_by_score_then_name() {
    let mut audits = vec![
        scored("zeta", 50, ""),
        scored("alpha", 90, ""),
        scored("beta", 50, ""),
        scored("Alpha", 50, ""),
        scored("épsilon", 50, ""),
        scored("e", 10, ""),
    ];
    sort_audits(&mut audits);
    let order: Vec<(u8, &str)> = audits.iter().map(|a| (a.score, a.repo.name.as_str())).collect();
    assert_eq!(
        order,
        vec![(10, "e"), (50, "Alpha"), (50, "beta"), (50, "zeta"), (50, "épsilon"), (90, "alpha")]
    );
}

#[test]
fn sort_is_stable_and_matches_std() {
    let original = vec![
        scored("b", 5, "first"),
        scored("a", 5, "second"),
        scored("b", 5, "third"),
        scored("a", 1, "fourth"),
        scored("b", 5, "fifth"),
    ];
    let mut ours = original.clone();
    sort_audits(&mut ours);
    let mut reference = original.clone();
    reference.sort_by(|l, r| l.score.cmp(&r.score).then_with(|| l.repo.name.cmp(&r.repo.name)));
    assert_eq!(ours, reference);
    let descriptions: Vec<&str> = ours.iter().map(|a| a.repo.description.as_str()).collect();
    assert_eq!(descriptions, vec!["fourth", "second", "first", "third", "fifth"]);
}

#[test]
fn sorting_sorted_audits_changes_nothing() {
    let mut audits = vec![scored("a", 1, ""), scored("b", 1, ""), scored("a", 2, "")];
    let before = audits.clone();
    sort_audits(&mut audits);
    assert_eq!(audits, before);
    let mut empty: Vec<RepoAudit> = Vec::new();
    sort_audits(&mut empty);
    assert!(empty.is_empty());
}

#[test]
fn tally_counts_and_sums() {
    let audits = vec![
        audit_repo(&repo("a"), Some("## features"), 50, false),
        audit_repo(&repo("b"), None, 50, false),
        audit_fetch_error(&repo("c"), "err", 50),
        scored("d", 90, ""),
    ];
    let tally = tally_audits(&audits, 50);
    assert_eq!(tally.total, 4);
    assert_eq!(tally.with_readme, 2);
    assert_eq!(tally.below_threshold, 3);
    assert_eq!(tally.score_sum, 108);
    let empty = tally_audits(&[], 50);
    assert_eq!((empty.total, empty.with_readme, empty.below_threshold, empty.score_sum), (0, 0, 0, 0));
}

#[test]
fn full_score_exactly_when_nothing_is_missing() {
    let all = "<p align=\"center\">\n## Features\n## Getting Started\n## Architecture\n## License\n## Tech Stack\n## Commands\n## Testing\n## Deployment\nquickstart-for-agents.vercel.app/api/header.svg";
    let full = audit_repo(&repo("a"), Some(all), 100, false);
    assert_eq!(full.score, 100);
    assert!(full.missing_required.is_empty() && full.missing_recommended.is_empty());
    assert!(full.notes.is_empty());
    let partial = audit_repo(&repo("a"), Some(&all.replace("## Testing\n", "")), 100, false);
    assert_eq!(partial.score, 92);
    assert_eq!(partial.missing_recommended, vec!["Run Tests"]);
}

#[test]
fn more_text_never_scores_less() {
    let small = audit_repo(&repo("a"), Some("## License\n## Usage"), 0, false);
    let large = audit_repo(&repo("a"), Some("intro\n## License\n## Usage trailing\n## deploy"), 0, false);
    assert_eq!(small.score, 22);
    assert_eq!(large.score, 28);
}

#[test]
fn every_heading_level_counts() {
    let single = audit_repo(&repo("example"), Some("# Features\n"), 0, false);
    assert_eq!(single.score, 18);
    assert_eq!(single.missing_required, vec!["Quick Start", "Architecture", "License"]);
    assert_eq!(single.status, AuditStatus::Weak);
    for heading in ["# Run Tests", "## Run Tests", "### Run Tests", "## Testing", "# testing"] {
        let audit = audit_repo(&repo("a"), Some(heading), 0, false);
        assert_eq!(audit.score, 8, "{heading}");
        assert!(!audit.missing_recommended.contains(&"Run Tests"));
    }
    let deploy = audit_repo(&repo("a"), Some("# Deployment"), 0, false);
    assert_eq!(deploy.score, 6);
}

#[test]
fn section_words_in_prose_are_no_headings() {
    let prose = audit_repo(&repo("a"), Some("c# features"), 0, false);
    assert_eq!(prose.score, 0);
    assert_eq!(prose.missing_required, vec!["Features", "Quick Start", "Architecture", "License"]);
    let mixed = "We write C# features, F# testing and C# usage.\nThe C# license is MIT.\ntext ## Deploy";
    assert_eq!(audit_repo(&repo("a"), Some(mixed), 0, false).score, 0);
    let indented = "  ##\tFeatures & more\n\t# usage\n#Deploy";
    let audit = audit_repo(&repo("a"), Some(indented), 0, false);
    assert_eq!(audit.score, 26);
    assert!(audit.missing_recommended.contains(&"Deploy"));
    let windows = "intro\r\n## License\r\n";
    assert_eq!(audit_repo(&repo("a"), Some(windows), 0, false).score, 14);
    let hero = audit_repo(&repo("a"), Some("text <p align=\"center\"> text"), 0, false);
    assert_eq!(hero.score, 3);
}
