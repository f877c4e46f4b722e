//! Auditing the README files of an organization's repositories: scoring each README
//! against a weighted template, ordering the results and rendering reports.
pub mod audit;
pub mod config;
pub mod github;
pub mod json;
pub mod output;
pub mod text;

use vstd::prelude::*;
use crate::audit::{audit_fetch_error, audit_repo, count_below, sort_audits, tally_audits, RepoAudit};
use crate::config::{Config, OutputFormat};
use crate::audit::string_texts;
use crate::github::RepoMetadata;
use crate::text::str_eq;
use crate::output::{json_report, markdown_report, render_json, render_markdown, render_table, table_report};

verus! {

/// What a run produces: the rendered report and how many repositories scored below target.
#[derive(Debug)]
pub struct RunResult {
    pub output: String,
    pub below_threshold: usize,
}

/// The repositories that a run audits: all of them, or only the public ones.
pub open spec fn visible_repos(repos: Seq<RepoMetadata>, include_private: bool) -> Seq<RepoMetadata>
    decreases repos.len(),
{
    if repos.len() == 0 {
        seq![]
    } else {
        let before = visible_repos(repos.drop_last(), include_private);
        if include_private || !repos.last().is_private {
            before.push(repos.last())
        } else {
            before
        }
    }
}

/// The error when filtering leaves no repository.
pub open spec fn nothing_left_message() -> Seq<char> {
    "No repositories remain after filtering. Try --include-private or increase --limit."@
}

/// Keeps the repositories that a run audits (private ones only when `include_private`),
/// in order; refuses an empty result.
pub fn select_repositories(repos: Vec<RepoMetadata>, include_private: bool) -> (r: Result<Vec<RepoMetadata>, String>)
    ensures
        visible_repos(repos@, include_private).len() == 0 ==> (r matches Err(m) && m@ == nothing_left_message()),
        visible_repos(repos@, include_private).len() > 0 ==> (r matches Ok(kept) && kept@ == visible_repos(
            repos@,
            include_private,
        )),
{
    let mut kept: Vec<RepoMetadata> = Vec::new();
    let mut i: usize = 0;
    while i < repos.len()
        invariant
            i <= repos@.len(),
            kept@ == visible_repos(repos@.take(i as int), include_private),
        decreases repos@.len() - i,
    {
        assert(repos@.take(i + 1).drop_last() =~= repos@.take(i as int));
        if include_private || !repos[i].is_private {
            kept.push(repos[i].duplicate());
        }
        i = i + 1;
    }
    assert(repos@.take(i as int) =~= repos@);
    if kept.len() == 0 {
        return Err(
            "No repositories remain after filtering. Try --include-private or increase --limit.".to_owned(),
        );
    }
    Ok(kept)
}

/// The optional README text of a fetch that succeeded.
pub open spec fn fetched_text(readme: Option<String>) -> Option<Seq<char>> {
    match readme {
        Some(t) => Some(t@),
        None => None,
    }
}

/// Audits a repository given the outcome of fetching its README: a fetched README (or its
/// absence) is audited by `audit_repo`, a failed fetch by `audit_fetch_error`.
pub fn audit_fetched(repo: &RepoMetadata, fetched: &Result<Option<String>, String>, min_score: u8, strict: bool) -> (audit: RepoAudit)
    ensures
        audit.repo == *repo,
        match fetched {
            Ok(readme) => audit.outcome() == crate::audit::expected_audit(
                fetched_text(*readme),
                min_score as nat,
                strict,
            ),
            Err(error) => audit.outcome() == crate::audit::expected_fetch_error_audit(error@, min_score as nat),
        },
{
    match fetched {
        Ok(readme) => {
            let text: Option<&str> = match readme {
                Some(t) => Some(t.as_str()),
                None => None,
            };
            audit_repo(repo, text, min_score, strict)
        },
        Err(error) => audit_fetch_error(repo, error.as_str(), min_score),
    }
}

/// The report of a format.
pub open spec fn report_text(format: OutputFormat, audits: Seq<RepoAudit>, org: Seq<char>, min_score: nat, average: Seq<char>) -> Seq<char> {
    match format {
        OutputFormat::Table => table_report(audits, org, min_score, average),
        OutputFormat::Markdown => markdown_report(audits, org, min_score, average),
        OutputFormat::Json => json_report(audits, org, min_score, average),
    }
}

/// Orders the audits (see `sort_audits`) and renders them in the configured format;
/// `average` is the average score as it is to be shown.
pub fn finish_run(audits: &mut Vec<RepoAudit>, config: &Config, average: &str) -> (r: RunResult)
    ensures
        final(audits)@.to_multiset() == old(audits)@.to_multiset(),
        crate::audit::audits_sorted(final(audits)@),
        exists|perm: Seq<int>| crate::audit::stable_arrangement(final(audits)@, old(audits)@, perm),
        r.output@ == report_text(config.format, final(audits)@, config.org@, config.min_score as nat, average@),
        r.below_threshold == count_below(final(audits)@, config.min_score as nat),
{
    sort_audits(audits.as_mut_slice());
    let tally = tally_audits(audits.as_slice(), config.min_score);
    let output = match config.format {
        OutputFormat::Table => render_table(audits.as_slice(), config.org.as_str(), config.min_score, average),
        OutputFormat::Markdown => render_markdown(audits.as_slice(), config.org.as_str(), config.min_score, average),
        OutputFormat::Json => render_json(audits.as_slice(), config.org.as_str(), config.min_score, average),
    };
    RunResult { output, below_threshold: tally.below_threshold }
}


/// Some argument asks for help: `--help` or `-h`.
pub open spec fn asks_for_help(args: Seq<Seq<char>>) -> bool {
    exists|i: int| 0 <= i < args.len() && (#[trigger] args[i] == "--help"@ || args[i] == "-h"@)
}

/// Whether some argument asks for help (`--help` or `-h`), which the program answers with
/// the usage text instead of a run.
pub fn wants_help(args: &[String]) -> (r: bool)
    ensures
        r == asks_for_help(string_texts(args@)),
{
    let ghost texts = string_texts(args@);
    let mut i: usize = 0;
    while i < args.len()
        invariant
            texts == string_texts(args@),
            i <= args@.len(),
            forall|k: int| 0 <= k < i ==> !(#[trigger] texts[k] == "--help"@ || texts[k] == "-h"@),
        decreases args@.len() - i,
    {
        let arg = args[i].as_str();
        assert(arg@ == texts[i as int]);
        if str_eq(arg, "--help") || str_eq(arg, "-h") {
            return true;
        }
        i = i + 1;
    }
    false
}

/// The exit status of a finished run: 2 in strict mode when some repository scored below
/// the target, 0 otherwise.
pub fn exit_code(strict: bool, below_threshold: usize) -> (code: i32)
    ensures
        code == (if strict && below_threshold > 0 {
            2i32
        } else {
            0i32
        }),
{
    if strict && below_threshold > 0 {
        2
    } else {
        0
    }
}

} // verus!
