use docs_sentry::audit::{tally_audits, AuditStatus, RepoAudit};
use docs_sentry::config::{Config, OutputFormat};
use docs_sentry::github::RepoMetadata;
use docs_sentry::output::{
    escape_json, format_missing, format_notes, render_json, render_json_note_list,
    render_json_string_list, render_markdown, render_table,
};
use docs_sentry::text::{chars_of, decimal_string, is_blank, parse_unsigned_str, str_eq};
use docs_sentry::{audit_fetched, finish_run, select_repositories};

fn audit(name: &str, score: u8, status: AuditStatus, req: Vec<&'static str>, rec: Vec<&'static str>, notes: Vec<&str>) -> RepoAudit {
    RepoAudit {
        repo: RepoMetadata { name: name.to_string(), is_private: false, description: String::new() },
        score,
        status,
        has_readme: status != AuditStatus::MissingReadme,
        missing_required: req,
        missing_recommended: rec,
        notes: notes.into_iter().map(|s| s.to_string()).collect(),
    }
}

fn samples() -> Vec<RepoAudit> {
    vec![
        audit("docs-sentry", 96, AuditStatus::Strong, vec![], vec!["Deploy"], vec![]),
        audit("naïve-ünïcode-repository", 7, AuditStatus::Weak, vec!["Features", "License"], vec![], vec!["Below target score (7 < 70).", "x"]),
        audit("q\"uote\\\u{1}\u{9f}\t", 0, AuditStatus::MissingReadme, vec!["Quick Start"], vec!["Usage", "Deploy"], vec!["README file is missing."]),
    ]
}

fn average(audits: &[RepoAudit], decimals: usize) -> String {
    let tally = tally_audits(audits, 70);
    let avg = if tally.total == 0 { 0.0 } else { tally.score_sum as f32 / tally.total as f32 };
    format!("{:.*}", decimals, avg)
}

// What the formatting macros give for the same report.
fn expected_table(audits: &[RepoAudit], org: &str, min_score: u8, avg: &str) -> String {
    let tally = tally_audits(audits, min_score);
    let mut output = String::new();
    output.push_str(&format!("Organization: {org}\n"));
    output.push_str(&format!("Repositories scanned: {}\n", tally.total));
    output.push_str(&format!("READMEs found: {}\n", tally.with_readme));
    output.push_str(&format!("Average score: {avg}\n"));
    output.push_str(&format!("Below target ({}): {}\n", min_score, tally.below_threshold));
    output.push_str("\n");
    if audits.is_empty() {
        return output;
    }
    let rows: Vec<[String; 5]> = audits
        .iter()
        .map(|a| {
            [
                a.repo.name.clone(),
                a.score.to_string(),
                a.status.as_str().to_string(),
                if a.missing_required.is_empty() { "-".to_string() } else { a.missing_required.join(", ") },
                if a.notes.is_empty() { "-".to_string() } else { a.notes.join(" | ") },
            ]
        })
        .collect();
    let width = |h: &str, i: usize| rows.iter().map(|r| r[i].len()).fold(h.len(), |m, n| m.max(n));
    let (w0, w1, w2, w3) = (width("Repo", 0), width("Score", 1), width("Status", 2), width("Missing Required", 3));
    output.push_str(&format!("{:<w0$}  {:>w1$}  {:<w2$}  {:<w3$}  Notes\n", "Repo", "Score", "Status", "Missing Required"));
    output.push_str(&format!("{}  {}  {}  {}  -----\n", "-".repeat(w0), "-".repeat(w1), "-".repeat(w2), "-".repeat(w3)));
    for r in rows {
        output.push_str(&format!("{:<w0$}  {:>w1$}  {:<w2$}  {:<w3$}  {}\n", r[0], r[1], r[2], r[3], r[4]));
    }
    output
}

fn expected_escape(value: &str) -> String {
    let mut escaped = String::new();
    for c in value.chars() {
        match c {
            '"' => escaped.push_str("\\\""),
            '\\' => escaped.push_str("\\\\"),
            '\n' => escaped.push_str("\\n"),
            '\r' => escaped.push_str("\\r"),
            '\t' => escaped.push_str("\\t"),
            c if c.is_control() => {
                escaped.push_str(&format!("\\u{:04x}", c as u32));
            }
            _ => escaped.push(c),
        }
    }
    escaped
}

#[test]
fn table_matches_formatting_macros() {
    let audits = samples();
    let avg = average(&audits, 1);
    assert_eq!(render_table(&audits, "Open330", 70, &avg), expected_table(&audits, "Open330", 70, &avg));
    assert_eq!(render_table(&[], "x", 0, "0.0"), expected_table(&[], "x", 0, "0.0"));
}

#[test]
fn table_exact_text() {
    let audits = vec![audit("ab", 5, AuditStatus::Weak, vec!["License"], vec![], vec![])];
    let expected = "Organization: o\nRepositories scanned: 1\nREADMEs found: 1\nAverage score: 5.0\nBelow target (70): 1\n\n\
Repo  Score  Status  Missing Required  Notes\n\
----  -----  ------  ----------------  -----\n\
ab        5  weak    License           -\n";
    assert_eq!(render_table(&audits, "o", 70, "5.0"), expected);
}

#[test]
fn markdown_exact_text() {
    let audits = samples();
    let text = render_markdown(&audits[..2], "Open330", 70, "51.5");
    let expected = "## Documentation Audit Report\n\n- Organization: `Open330`\n- Repositories scanned: 2\n- READMEs found: 2\n- Average score: 51.5\n- Below target (`70`): 1\n\n\
| Repo | Score | Status | Missing Required | Missing Recommended | Notes |\n\
| --- | ---: | --- | --- | --- | --- |\n\
| `docs-sentry` | 96 | strong | - | Deploy | - |\n\
| `naïve-ünïcode-repository` | 7 | weak | Features, License | - | Below target score (7 < 70). | x |\n";
    assert_eq!(text, expected);
}

#[test]
fn json_exact_text() {
    let audits = vec![
        audit("a", 80, AuditStatus::NeedsWork, vec![], vec!["Deploy", "Usage"], vec!["n\"1"]),
        audit("b", 0, AuditStatus::MissingReadme, vec!["Features"], vec![], vec![]),
    ];
    let expected = "{\n  \"organization\": \"o\\\\x\",\n  \"repositories_scanned\": 2,\n  \"readmes_found\": 1,\n  \"average_score\": 40.00,\n  \"below_target\": 1,\n  \"repos\": [\n\
\x20   {\n      \"name\": \"a\",\n      \"score\": 80,\n      \"status\": \"needs-work\",\n      \"missing_required\": [],\n      \"missing_recommended\": [\"Deploy\", \"Usage\"],\n      \"notes\": [\"n\\\"1\"]\n    },\n\
\x20   {\n      \"name\": \"b\",\n      \"score\": 0,\n      \"status\": \"missing-readme\",\n      \"missing_required\": [\"Features\"],\n      \"missing_recommended\": [],\n      \"notes\": []\n    }\n  ]\n}\n";
    assert_eq!(render_json(&audits, "o\\x", 70, "40.00"), expected);
    let empty = render_json(&[], "o", 70, "0.00");
    assert!(empty.ends_with("\"repos\": [\n  ]\n}\n"));
}

#[test]
fn json_escaping() {
    for value in ["plain", "q\"b\\s", "\n\r\t", "\u{0}\u{1f}\u{7f}\u{85}\u{9f}\u{a0}", "ünï😀"] {
        assert_eq!(escape_json(value), expected_escape(value));
    }
    assert_eq!(escape_json("\u{1}"), "\\u0001");
    assert_eq!(render_json_string_list(&["a", "b\""]), "[\"a\", \"b\\\"\"]");
    assert_eq!(render_json_string_list(&[]), "[]");
    assert_eq!(render_json_note_list(&["x".to_string()]), "[\"x\"]");
}

#[test]
fn joined_lists() {
    assert_eq!(format_missing(&[]), "-");
    assert_eq!(format_missing(&["A", "B", "C"]), "A, B, C");
    assert_eq!(format_notes(&[]), "-");
    assert_eq!(format_notes(&["x".to_string(), "y".to_string()]), "x | y");
}

#[test]
fn text_primitives() {
    assert_eq!(decimal_string(0), "0");
    assert_eq!(decimal_string(42), "42");
    assert_eq!(decimal_string(u64::MAX), u64::MAX.to_string());
    assert_eq!(chars_of("aé😀"), vec!['a', 'é', '😀']);
    assert!(str_eq("abc", "abc"));
    assert!(!str_eq("abc", "abd"));
    assert!(!str_eq("é", "e"));
    assert!(is_blank(" \u{2003}\n"));
    assert!(!is_blank(" x "));
    assert_eq!(parse_unsigned_str("+12", 100), Some(12));
    assert_eq!(parse_unsigned_str("101", 100), None);
}

#[test]
fn run_steps() {
    let repos = vec![
        RepoMetadata { name: "pub".to_string(), is_private: false, description: String::new() },
        RepoMetadata { name: "priv".to_string(), is_private: true, description: String::new() },
    ];
    let kept = select_repositories(repos.clone(), false).unwrap();
    assert_eq!(kept, vec![repos[0].clone()]);
    assert_eq!(select_repositories(repos.clone(), true).unwrap(), repos);
    assert_eq!(
        select_repositories(vec![repos[1].clone()], false),
        Err("No repositories remain after filtering. Try --include-private or increase --limit.".to_string())
    );

    let found = audit_fetched(&repos[0], &Ok(Some("## Features".to_string())), 70, false);
    assert_eq!(found.score, 18);
    let absent = audit_fetched(&repos[0], &Ok(None), 70, false);
    assert_eq!(absent.status, AuditStatus::MissingReadme);
    let failed = audit_fetched(&repos[1], &Err("boom".to_string()), 70, false);
    assert_eq!(failed.status, AuditStatus::FetchError);

    let mut audits = vec![found, absent, failed];
    let mut config = Config::default();
    config.format = OutputFormat::Markdown;
    let result = finish_run(&mut audits, &config, "6.0");
    assert_eq!(result.below_threshold, 3);
    assert_eq!(audits[0].repo.name, "priv");
    assert_eq!(audits[2].score, 18);
    assert_eq!(result.output, render_markdown(&audits, "Open330", 70, "6.0"));
}
