use docs_sentry::github::{
    best_error, fetch_readme, list_repositories, parse_repo_line, parse_repo_listing, readme_args,
    repo_list_args, CommandResult, RepoMetadata,
};

fn result(success: bool, stdout: &str, stderr: &str) -> CommandResult {
    CommandResult { success, stdout: stdout.to_string(), stderr: stderr.to_string() }
}

fn meta(name: &str, is_private: bool, description: &str) -> RepoMetadata {
    RepoMetadata { name: name.to_string(), is_private, description: description.to_string() }
}

#[test]
fn line_fields() {
    assert_eq!(parse_repo_line(" tool \t true \t  a\tb  "), Some(meta("tool", true, "a\tb")));
    assert_eq!(parse_repo_line("tool"), Some(meta("tool", false, "")));
    assert_eq!(parse_repo_line("tool\tTRUE"), Some(meta("tool", false, "")));
    assert_eq!(parse_repo_line("tool\ttrue"), Some(meta("tool", true, "")));
    assert_eq!(parse_repo_line("   \ttrue\tx"), None);
    assert_eq!(parse_repo_line(""), None);
}

#[test]
fn listing_lines() {
    let out = "a\tfalse\tfirst\r\n\nb\ttrue\t\n  \n c \tfalse\tlast";
    assert_eq!(
        parse_repo_listing(out),
        vec![meta("a", false, "first"), meta("b", true, ""), meta("c", false, "last")]
    );
    assert_eq!(parse_repo_listing(""), Vec::<RepoMetadata>::new());
    let reference: Vec<RepoMetadata> = out.lines().filter_map(parse_repo_line).collect();
    assert_eq!(parse_repo_listing(out), reference);
}

#[test]
fn listing_outcomes() {
    assert_eq!(
        list_repositories("org", &result(false, "", "  auth required\n")),
        Err("Failed to list repositories for 'org': auth required".to_string())
    );
    assert_eq!(
        list_repositories("org", &result(true, "\n\n", "")),
        Err("No repositories returned for organization 'org'. Check access with: gh auth status".to_string())
    );
    assert_eq!(
        list_repositories("org", &result(true, "x\tfalse\tdesc\n", "")),
        Ok(vec![meta("x", false, "desc")])
    );
}

#[test]
fn error_text_preference() {
    assert_eq!(best_error(&result(false, " out ", " err ")), "err");
    assert_eq!(best_error(&result(false, " out ", " \n ")), "out");
    assert_eq!(best_error(&result(false, "", "")), "unknown gh error");
}

#[test]
fn readme_outcomes() {
    assert_eq!(fetch_readme("o", "r", &result(true, "# Title\n", "")), Ok(Some("# Title\n".to_string())));
    assert_eq!(fetch_readme("o", "r", &result(false, "", "HTTP 404: Not Found")), Ok(None));
    assert_eq!(fetch_readme("o", "r", &result(false, "{\"message\":\"Not Found\"}", "")), Ok(None));
    assert_eq!(
        fetch_readme("o", "r", &result(false, "", "HTTP 500: boom")),
        Err("Unable to fetch README for 'o/r': HTTP 500: boom".to_string())
    );
    assert_eq!(
        fetch_readme("o", "r", &result(false, "", "not found")),
        Err("Unable to fetch README for 'o/r': not found".to_string())
    );
}

#[test]
fn command_arguments() {
    assert_eq!(
        repo_list_args("Open330", 100),
        vec![
            "repo",
            "list",
            "Open330",
            "--limit",
            "100",
            "--json",
            "name,isPrivate,description",
            "--jq",
            ".[] | [.name, (.isPrivate|tostring), (.description // \"\")] | @tsv",
        ]
    );
    assert_eq!(repo_list_args("o", 0)[4], "0");
    assert_eq!(repo_list_args("o", usize::MAX)[4], usize::MAX.to_string());
    assert_eq!(
        readme_args("o", "r"),
        vec!["api", "-H", "Accept: application/vnd.github.raw+json", "repos/o/r/readme"]
    );
}
