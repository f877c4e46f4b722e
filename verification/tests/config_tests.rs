use docs_sentry::config::{Config, OutputFormat};

#[test]
fn parses_defaults() {
    let config = Config::parse(Vec::new()).expect("default parse should work");
    assert_eq!(config.org, "Open330");
    assert_eq!(config.limit, 100);
    assert_eq!(config.min_score, 70);
    assert_eq!(config.format, OutputFormat::Table);
    assert!(!config.include_private);
    assert!(!config.strict);
}

#[test]
fn parses_custom_flags() {
    let config = Config::parse(vec![
        "--org".to_string(),
        "ExampleOrg".to_string(),
        "--limit".to_string(),
        "25".to_string(),
        "--min-score".to_string(),
        "88".to_string(),
        "--format".to_string(),
        "markdown".to_string(),
        "--include-private".to_string(),
        "--strict".to_string(),
    ])
    .expect("custom parse should work");

    assert_eq!(config.org, "ExampleOrg");
    assert_eq!(config.limit, 25);
    assert_eq!(config.min_score, 88);
    assert_eq!(config.format, OutputFormat::Markdown);
    assert!(config.include_private);
    assert!(config.strict);
}
