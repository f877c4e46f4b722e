use docs_sentry::audit::{audit_repo, tally_audits, AuditStatus, RepoAudit};
use docs_sentry::github::RepoMetadata;
use docs_sentry::output::{escape_json, render_json};

#[derive(Debug, PartialEq)]
enum Json {
    Text(String),
    Number(String),
    List(Vec<Json>),
    Object(Vec<(String, Json)>),
}

struct Reader {
    chars: Vec<char>,
    at: usize,
}

impl Reader {
    fn new(text: &str) -> Reader {
        Reader { chars: text.chars().collect(), at: 0 }
    }

    fn skip_space(&mut self) {
        while self.at < self.chars.len() && matches!(self.chars[self.at], ' ' | '\t' | '\n' | '\r') {
            self.at += 1;
        }
    }

    fn next(&mut self) -> Option<char> {
        let c = self.chars.get(self.at).copied();
        self.at += 1;
        c
    }

    fn expect(&mut self, c: char) -> Option<()> {
        self.skip_space();
        if self.next()? == c {
            Some(())
        } else {
            None
        }
    }

    fn text(&mut self) -> Option<String> {
        let mut out = String::new();
        loop {
            let c = self.next()?;
            match c {
                '"' => return Some(out),
                '\\' => {
                    let e = self.next()?;
                    match e {
                        '"' => out.push('"'),
                        '\\' => out.push('\\'),
                        '/' => out.push('/'),
                        'b' => out.push('\u{8}'),
                        'f' => out.push('\u{c}'),
                        'n' => out.push('\n'),
                        'r' => out.push('\r'),
                        't' => out.push('\t'),
                        'u' => {
                            let mut v = 0u32;
                            for _ in 0..4 {
                                v = v * 16 + self.next()?.to_digit(16)?;
                            }
                            out.push(char::from_u32(v)?);
                        }
                        _ => return None,
                    }
                }
                c if (c as u32) < 0x20 => return None,
                c => out.push(c),
            }
        }
    }

    fn value(&mut self) -> Option<Json> {
        self.skip_space();
        match self.next()? {
            '"' => Some(Json::Text(self.text()?)),
            '[' => {
                let mut items = Vec::new();
                self.skip_space();
                if self.chars.get(self.at) == Some(&']') {
                    self.at += 1;
                    return Some(Json::List(items));
                }
                loop {
                    items.push(self.value()?);
                    self.skip_space();
                    match self.next()? {
                        ',' => {}
                        ']' => return Some(Json::List(items)),
                        _ => return None,
                    }
                }
            }
            '{' => {
                let mut members = Vec::new();
                self.skip_space();
                if self.chars.get(self.at) == Some(&'}') {
                    self.at += 1;
                    return Some(Json::Object(members));
                }
                loop {
                    self.expect('"')?;
                    let key = self.text()?;
                    self.expect(':')?;
                    let v = self.value()?;
                    members.push((key, v));
                    self.skip_space();
                    match self.next()? {
                        ',' => {}
                        '}' => return Some(Json::Object(members)),
                        _ => return None,
                    }
                }
            }
            c if c.is_ascii_digit() => {
                let start = self.at - 1;
                while self.at < self.chars.len() && (self.chars[self.at].is_ascii_digit() || self.chars[self.at] == '.') {
                    self.at += 1;
                }
                Some(Json::Number(self.chars[start..self.at].iter().collect()))
            }
            _ => None,
        }
    }
}

fn parse(text: &str) -> Option<Json> {
    let mut reader = Reader::new(text);
    let v = reader.value()?;
    reader.skip_space();
    if reader.at == reader.chars.len() {
        Some(v)
    } else {
        None
    }
}

fn texts(items: &[&str]) -> Json {
    Json::List(items.iter().map(|s| Json::Text(s.to_string())).collect())
}

fn audit(name: &str, score: u8, status: AuditStatus, req: Vec<&'static str>, rec: Vec<&'static str>, notes: Vec<&str>) -> RepoAudit {
    RepoAudit {
        repo: RepoMetadata { name: name.to_string(), is_private: false, description: String::new() },
        score,
        status,
        has_readme: status != AuditStatus::MissingReadme,
        missing_required: req,
        missing_recommended: rec,
        notes: notes.into_iter().map(|s| s.to_string()).collect(),
    }
}

fn entry(a: &RepoAudit) -> Json {
    Json::Object(vec![
        ("name".to_string(), Json::Text(a.repo.name.clone())),
        ("score".to_string(), Json::Number(a.score.to_string())),
        ("status".to_string(), Json::Text(a.status.as_str().to_string())),
        ("missing_required".to_string(), texts(&a.missing_required)),
        ("missing_recommended".to_string(), texts(&a.missing_recommended)),
        ("notes".to_string(), Json::List(a.notes.iter().map(|s| Json::Text(s.clone())).collect())),
    ])
}

#[test]
fn json_report_reads_back() {
    let audits = vec![
        audit("plain", 96, AuditStatus::Strong, vec![], vec!["Deploy"], vec![]),
        audit("q\"uote\\ \u{1}\u{7f}\t\n", 7, AuditStatus::Weak, vec!["Features", "License"], vec![], vec!["a \"note\"", "ünï😀"]),
        audit("gone", 0, AuditStatus::MissingReadme, vec!["Quick Start"], vec!["Usage", "Deploy"], vec!["README file is missing."]),
    ];
    let org = "or\"g\\\u{2}";
    let text = render_json(&audits, org, 70, "34.33");
    let expected = Json::Object(vec![
        ("organization".to_string(), Json::Text(org.to_string())),
        ("repositories_scanned".to_string(), Json::Number("3".to_string())),
        ("readmes_found".to_string(), Json::Number("2".to_string())),
        ("average_score".to_string(), Json::Number("34.33".to_string())),
        ("below_target".to_string(), Json::Number("2".to_string())),
        ("repos".to_string(), Json::List(audits.iter().map(entry).collect())),
    ]);
    assert_eq!(parse(&text), Some(expected));
    let empty = render_json(&[], "o", 70, "0.00");
    assert!(matches!(parse(&empty), Some(Json::Object(ref m)) if m[5] == ("repos".to_string(), Json::List(vec![]))));
}

#[test]
fn escaped_text_decodes_and_holds_no_control_characters() {
    for value in ["plain", "q\"b\\s", "\n\r\t", "\u{0}\u{1f}\u{7f}\u{85}\u{9f}\u{a0}", "ünï😀", ""] {
        let escaped = escape_json(value);
        assert!(!escaped.chars().any(|c| c.is_control()), "{value:?}");
        let mut reader = Reader::new(&escaped);
        reader.chars.push('"');
        assert_eq!(reader.text(), Some(value.to_string()));
    }
    assert_eq!(escape_json("plain text, ünï"), "plain text, ünï");
}

#[test]
fn counts_do_not_depend_on_order() {
    let repo = |name: &str| RepoMetadata { name: name.to_string(), is_private: false, description: String::new() };
    let a = vec![
        audit_repo(&repo("a"), Some("## Features\n## License"), 50, false),
        audit_repo(&repo("b"), None, 50, false),
        audit_repo(&repo("c"), Some("## Testing"), 50, true),
        audit_repo(&repo("d"), Some("## Features\n## Quick Start\n## Architecture\n## License"), 50, false),
    ];
    let b = vec![a[3].clone(), a[1].clone(), a[0].clone(), a[2].clone()];
    let ta = tally_audits(&a, 50);
    let tb = tally_audits(&b, 50);
    assert_eq!((ta.total, ta.with_readme, ta.below_threshold, ta.score_sum), (tb.total, tb.with_readme, tb.below_threshold, tb.score_sum));
    assert_eq!((ta.total, ta.with_readme, ta.below_threshold, ta.score_sum), (4, 3, 3, 32 + 0 + 0 + 62));
}

#[test]
fn strict_mode_more_text_never_scores_less() {
    let repo = RepoMetadata { name: "a".to_string(), is_private: false, description: String::new() };
    let small = audit_repo(&repo, Some("## Features\n## Usage"), 0, true);
    let large = audit_repo(&repo, Some("intro\n## Features\n## Usage\n## License\n# Quick Start"), 0, true);
    assert_eq!(small.score, 11);
    assert_eq!(large.score, 51);
    assert!(large.score >= small.score);
    assert!(large.missing_required.iter().all(|m| small.missing_required.contains(m)));
    assert!(large.missing_recommended.iter().all(|m| small.missing_recommended.contains(m)));
}
