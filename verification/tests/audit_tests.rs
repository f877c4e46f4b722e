use docs_sentry::audit::{audit_repo, tally_audits, AuditStatus};
use docs_sentry::github::RepoMetadata;

fn example_repo() -> RepoMetadata {
    RepoMetadata {
        name: "example".to_string(),
        is_private: false,
        description: "Example repo".to_string(),
    }
}

#[test]
fn scores_template_like_readme_high() {
    let readme = "
<p align=\"center\"></p>
## Features
## Quick Start
## Architecture
## Tech Stack
## Usage
### Run Tests
## Deploy
## License
quickstart-for-agents.vercel.app/api/header.svg
";

    let audit = audit_repo(&example_repo(), Some(readme), 70, false);
    assert_eq!(audit.score, 100);
    assert_eq!(audit.status, AuditStatus::Strong);
    assert!(audit.missing_required.is_empty());
}

#[test]
fn marks_missing_readme() {
    let audit = audit_repo(&example_repo(), None, 70, false);
    assert_eq!(audit.score, 0);
    assert_eq!(audit.status, AuditStatus::MissingReadme);
    assert!(!audit.missing_required.is_empty());
}

#[test]
fn summary_counts_thresholds() {
    let readme = "## Features\n## Quick Start\n## Architecture\n## License\n";
    let passing = audit_repo(&example_repo(), Some(readme), 50, false);
    let failing = audit_repo(
        &RepoMetadata {
            name: "no-readme".to_string(),
            is_private: false,
            description: "".to_string(),
        },
        None,
        50,
        false,
    );

    let summary = tally_audits(&[passing, failing], 50);
    assert_eq!(summary.total, 2);
    assert_eq!(summary.with_readme, 1);
    assert_eq!(summary.below_threshold, 1);
}
