use docs_sentry::config::{take_value, Config, OutputFormat};

fn args(items: &[&str]) -> Vec<String> {
    items.iter().map(|s| s.to_string()).collect()
}

#[test]
fn default_options() {
    let config = Config::default();
    assert_eq!(config, Config::parse(Vec::new()).unwrap());
}

#[test]
fn format_names_round_trip() {
    for format in [OutputFormat::Table, OutputFormat::Markdown, OutputFormat::Json] {
        assert_eq!(OutputFormat::parse(format.as_str()), Ok(format));
    }
    assert_eq!(
        OutputFormat::parse("yaml"),
        Err("Unsupported format 'yaml'. Expected one of: table, markdown, json.".to_string())
    );
    assert!(OutputFormat::parse("Table").is_err());
}

#[test]
fn later_flags_win() {
    let config = Config::parse(args(&["--limit", "5", "--limit", "+7", "--format", "json", "--format", "table"])).unwrap();
    assert_eq!(config.limit, 7);
    assert_eq!(config.format, OutputFormat::Table);
}

#[test]
fn option_errors() {
    assert_eq!(Config::parse(args(&["--org"])), Err("Missing value for --org.".to_string()));
    assert_eq!(Config::parse(args(&["--org", " \t "])), Err("--org cannot be empty.".to_string()));
    assert_eq!(
        Config::parse(args(&["--limit", "ten"])),
        Err("Invalid --limit value 'ten'. Expected a positive integer.".to_string())
    );
    assert_eq!(
        Config::parse(args(&["--limit", "-3"])),
        Err("Invalid --limit value '-3'. Expected a positive integer.".to_string())
    );
    assert_eq!(Config::parse(args(&["--limit", "0"])), Err("--limit must be greater than 0.".to_string()));
    assert_eq!(
        Config::parse(args(&["--min-score", "256"])),
        Err("Invalid --min-score value '256'. Expected 0-100.".to_string())
    );
    assert_eq!(
        Config::parse(args(&["--min-score", "101"])),
        Err("--min-score must be in range 0-100.".to_string())
    );
    assert_eq!(
        Config::parse(args(&["--format", "xml"])),
        Err("Unsupported format 'xml'. Expected one of: table, markdown, json.".to_string())
    );
    assert_eq!(Config::parse(args(&["--strict", "--format"])), Err("Missing value for --format.".to_string()));
    let unknown = Config::parse(args(&["--verbose"])).unwrap_err();
    assert_eq!(unknown, format!("Unknown option '--verbose'.\n\n{}", Config::usage()));
}

#[test]
fn numbers_parse_as_std_does() {
    let samples = [
        "0", "7", "+7", "007", "100", "255", "256", "", "+", "-", "-1", "1a", " 1", "1 ", "++1",
        "18446744073709551615", "18446744073709551616", "99999999999999999999999",
    ];
    for raw in samples {
        let ours = Config::parse(args(&["--min-score", raw]));
        let expected_min: Result<u8, String> = match raw.parse::<u8>() {
            Err(_) => Err(format!("Invalid --min-score value '{raw}'. Expected 0-100.")),
            Ok(v) if v > 100 => Err("--min-score must be in range 0-100.".to_string()),
            Ok(v) => Ok(v),
        };
        assert_eq!(ours.map(|c| c.min_score), expected_min, "min-score {raw:?}");
        let ours = Config::parse(args(&["--limit", raw]));
        let expected_limit: Result<usize, String> = match raw.parse::<usize>() {
            Err(_) => Err(format!("Invalid --limit value '{raw}'. Expected a positive integer.")),
            Ok(0) => Err("--limit must be greater than 0.".to_string()),
            Ok(v) => Ok(v),
        };
        assert_eq!(ours.map(|c| c.limit), expected_limit, "limit {raw:?}");
    }
}

#[test]
fn blank_organizations_follow_str_trim() {
    for org in [" ", "\u{3000}", "\u{85}x", "\u{200b}", "a b", "\n\t"] {
        let ours = Config::parse(args(&["--org", org]));
        if org.trim().is_empty() {
            assert_eq!(ours, Err("--org cannot be empty.".to_string()));
        } else {
            assert_eq!(ours.unwrap().org, org);
        }
    }
}

#[test]
fn take_value_reads_the_next_argument() {
    let list = args(&["--org", "x"]);
    assert_eq!(take_value(&list, 0, "--org"), Ok("x".to_string()));
    assert_eq!(take_value(&list, 1, "--flag"), Err("Missing value for --flag.".to_string()));
}

#[test]
fn usage_mentions_every_option() {
    let usage = Config::usage();
    for option in ["--org", "--limit", "--min-score", "--format", "--include-private", "--strict", "--help"] {
        assert!(usage.contains(option));
    }
}

#[test]
fn accepted_options_are_valid() {
    for list in [
        vec![],
        vec!["--strict"],
        vec!["--org", "x", "--limit", "1", "--min-score", "100"],
        vec!["--min-score", "0", "--include-private"],
    ] {
        let config = Config::parse(args(&list)).unwrap();
        assert!(!config.org.trim().is_empty());
        assert!(config.limit >= 1);
        assert!(config.min_score <= 100);
    }
}

#[test]
fn rendered_limit_parses_back() {
    for n in [1usize, 9, 10, 100, 4096, usize::MAX] {
        let list = docs_sentry::github::repo_list_args("o", n);
        let config = Config::parse(vec!["--limit".to_string(), list[4].clone()]).unwrap();
        assert_eq!(config.limit, n);
    }
}
