use docs_sentry::github::parse_repo_line;

#[test]
fn parses_repo_tsv_line() {
    let parsed = parse_repo_line("docs-sentry\tfalse\tREADME quality auditor")
        .expect("line should parse");
    assert_eq!(parsed.name, "docs-sentry");
    assert!(!parsed.is_private);
    assert_eq!(parsed.description, "README quality auditor");
}

#[test]
fn ignores_empty_repo_name() {
    assert!(parse_repo_line("\tfalse\tmissing").is_none());
}
