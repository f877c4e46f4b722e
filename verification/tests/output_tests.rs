use docs_sentry::audit::{tally_audits, AuditStatus, RepoAudit};
use docs_sentry::github::RepoMetadata;
use docs_sentry::output::{render_markdown, render_table};

fn sample_reports() -> Vec<RepoAudit> {
    vec![RepoAudit {
        repo: RepoMetadata {
            name: "docs-sentry".to_string(),
            is_private: false,
            description: "README audit tool".to_string(),
        },
        score: 96,
        status: AuditStatus::Strong,
        has_readme: true,
        missing_required: Vec::new(),
        missing_recommended: vec!["Deploy"],
        notes: Vec::new(),
    }]
}

/// The average score with one decimal, as the program prints it.
fn average_text(reports: &[RepoAudit]) -> String {
    let tally = tally_audits(reports, 70);
    let average = if tally.total == 0 { 0.0 } else { tally.score_sum as f32 / tally.total as f32 };
    format!("{:.1}", average)
}

#[test]
fn table_contains_headers() {
    let reports = sample_reports();
    let output = render_table(&reports, "Open330", 70, &average_text(&reports));
    assert!(output.contains("Organization: Open330"));
    assert!(output.contains("Missing Required"));
    assert!(output.contains("docs-sentry"));
}

#[test]
fn markdown_contains_table() {
    let reports = sample_reports();
    let output = render_markdown(&reports, "Open330", 70, &average_text(&reports));
    assert!(output.contains("## Documentation Audit Report"));
    assert!(output.contains("| Repo | Score | Status |"));
    assert!(output.contains("`docs-sentry`"));
}
