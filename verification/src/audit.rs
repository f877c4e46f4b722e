//! The README scoring model: weighted section checks, status tiers, notes,
//! ordering of audits and the counts of a summary.
use vstd::prelude::*;
use crate::github::RepoMetadata;
use vstd::utf8::encode_utf8;
use crate::text::{contains_bytes, decimal, find_bytes, find_heading, has_heading, lower_bytes, lowered_bytes, push_decimal};
use crate::text::{
    heading_at, heading_line_at, lemma_first_lowered_byte, lemma_heading_in_context, lemma_lowered_ascii_run,
    lemma_skip_blank_run, lemma_skip_hash_run, line_start, no_heading_line, skip_blanks, skip_hashes,
};

verus! {

/// The quality tier of one repository's documentation.
#[derive(Clone, Copy, Debug, PartialEq, Eq, Structural)]
pub enum AuditStatus {
    Strong,
    NeedsWork,
    Weak,
    MissingReadme,
    FetchError,
}

impl AuditStatus {
    /// The label under which a status is reported.
    pub open spec fn label(self) -> Seq<char> {
        match self {
            AuditStatus::Strong => "strong"@,
            AuditStatus::NeedsWork => "needs-work"@,
            AuditStatus::Weak => "weak"@,
            AuditStatus::MissingReadme => "missing-readme"@,
            AuditStatus::FetchError => "fetch-error"@,
        }
    }

    /// The label under which a status is reported.
    pub fn as_str(self) -> (s: &'static str)
        ensures
            s@ == self.label(),
    {
        match self {
            AuditStatus::Strong => "strong",
            AuditStatus::NeedsWork => "needs-work",
            AuditStatus::Weak => "weak",
            AuditStatus::MissingReadme => "missing-readme",
            AuditStatus::FetchError => "fetch-error",
        }
    }
}

/// The result of auditing one repository.
#[derive(Clone, Debug, PartialEq, Eq)]
pub struct RepoAudit {
    pub repo: RepoMetadata,
    pub score: u8,
    pub status: AuditStatus,
    pub has_readme: bool,
    pub missing_required: Vec<&'static str>,
    pub missing_recommended: Vec<&'static str>,
    pub notes: Vec<String>,
}

/// The texts of a list of names.
pub open spec fn name_texts<'a>(names: Seq<&'a str>) -> Seq<Seq<char>> {
    names.map_values(|n: &'a str| n@)
}

/// Appending a name appends its text.
pub proof fn lemma_name_texts_push<'a>(names: Seq<&'a str>, name: &'a str)
    ensures
        name_texts(names.push(name)) == name_texts(names).push(name@),
{
    assert(name_texts(names.push(name)) =~= name_texts(names).push(name@));
}

/// The texts of a list of strings.
pub open spec fn string_texts(strings: Seq<String>) -> Seq<Seq<char>> {
    strings.map_values(|s: String| s@)
}

/// What an audit says about a repository, apart from the repository itself.
pub struct AuditOutcome {
    pub score: int,
    pub status: AuditStatus,
    pub has_readme: bool,
    pub missing_required: Seq<Seq<char>>,
    pub missing_recommended: Seq<Seq<char>>,
    pub notes: Seq<Seq<char>>,
}

impl RepoAudit {
    /// The outcome that this audit records.
    pub open spec fn outcome(&self) -> AuditOutcome {
        AuditOutcome {
            score: self.score as int,
            status: self.status,
            has_readme: self.has_readme,
            missing_required: name_texts(self.missing_required@),
            missing_recommended: name_texts(self.missing_recommended@),
            notes: string_texts(self.notes@),
        }
    }
}

// ---------------------------------------------------------------------------
// The weighted checks
// ---------------------------------------------------------------------------

/// The number of weighted checks.
pub const SECTION_COUNT: usize = 10;

/// The name of check `i`.
pub open spec fn section_name(i: int) -> Seq<char> {
    if i == 0 {
        "Features"@
    } else if i == 1 {
        "Quick Start"@
    } else if i == 2 {
        "Architecture"@
    } else if i == 3 {
        "License"@
    } else if i == 4 {
        "Tech Stack"@
    } else if i == 5 {
        "Usage"@
    } else if i == 6 {
        "Run Tests"@
    } else if i == 7 {
        "Deploy"@
    } else if i == 8 {
        "Centered Hero"@
    } else {
        "Agent Header"@
    }
}

/// The points that check `i` is worth.
pub open spec fn section_weight(i: int) -> nat {
    if i == 0 {
        18
    } else if i == 1 {
        16
    } else if i == 2 || i == 3 {
        14
    } else if i == 4 {
        10
    } else if i == 5 || i == 6 {
        8
    } else if i == 7 {
        6
    } else {
        3
    }
}

/// Whether check `i` is a required section (the others are recommended).
pub open spec fn section_required(i: int) -> bool {
    0 <= i < 4
}

/// The texts whose presence satisfies check `i`; any one of them is enough. For the
/// heading checks they are heading titles, for the others texts found anywhere.
pub open spec fn section_patterns(i: int) -> Seq<Seq<char>> {
    if i == 0 {
        seq!["features"@]
    } else if i == 1 {
        seq!["quick start"@, "getting started"@]
    } else if i == 2 {
        seq!["architecture"@]
    } else if i == 3 {
        seq!["license"@]
    } else if i == 4 {
        seq!["tech stack"@]
    } else if i == 5 {
        seq!["usage"@, "cli options"@, "commands"@]
    } else if i == 6 {
        seq!["run tests"@, "testing"@]
    } else if i == 7 {
        seq!["deploy"@, "deployment"@]
    } else if i == 8 {
        seq!["<p align=\"center\">"@]
    } else {
        seq!["quickstart-for-agents.vercel.app/api/header.svg"@]
    }
}

fn section_name_str(i: usize) -> (s: &'static str)
    requires
        i < SECTION_COUNT,
    ensures
        s@ == section_name(i as int),
{
    if i == 0 {
        "Features"
    } else if i == 1 {
        "Quick Start"
    } else if i == 2 {
        "Architecture"
    } else if i == 3 {
        "License"
    } else if i == 4 {
        "Tech Stack"
    } else if i == 5 {
        "Usage"
    } else if i == 6 {
        "Run Tests"
    } else if i == 7 {
        "Deploy"
    } else if i == 8 {
        "Centered Hero"
    } else {
        "Agent Header"
    }
}

fn section_weight_value(i: usize) -> (w: u16)
    requires
        i < SECTION_COUNT,
    ensures
        w == section_weight(i as int),
{
    if i == 0 {
        18
    } else if i == 1 {
        16
    } else if i == 2 || i == 3 {
        14
    } else if i == 4 {
        10
    } else if i == 5 || i == 6 {
        8
    } else if i == 7 {
        6
    } else {
        3
    }
}

fn section_patterns_list(i: usize) -> (p: Vec<&'static str>)
    requires
        i < SECTION_COUNT,
    ensures
        name_texts(p@) == section_patterns(i as int),
{
    let p: Vec<&'static str> = if i == 0 {
        vec!["features"]
    } else if i == 1 {
        vec!["quick start", "getting started"]
    } else if i == 2 {
        vec!["architecture"]
    } else if i == 3 {
        vec!["license"]
    } else if i == 4 {
        vec!["tech stack"]
    } else if i == 5 {
        vec!["usage", "cli options", "commands"]
    } else if i == 6 {
        vec!["run tests", "testing"]
    } else if i == 7 {
        vec!["deploy", "deployment"]
    } else if i == 8 {
        vec!["<p align=\"center\">"]
    } else {
        vec!["quickstart-for-agents.vercel.app/api/header.svg"]
    };
    assert(name_texts(p@) =~= section_patterns(i as int));
    p
}


// ---------------------------------------------------------------------------
// The scoring model
// ---------------------------------------------------------------------------

/// The checks `Features` to `Deploy` look for a heading; the other two for a text anywhere.
pub open spec fn heading_check(i: int) -> bool {
    0 <= i < 8
}

/// Pattern `pattern` of check `i` is found in the README, comparing the README's UTF-8
/// bytes and the pattern's with ASCII letters lowered: for a heading check, some line of
/// the README is a heading (blanks, one or more `#`, one or more blanks) that begins with
/// the pattern; for the other checks, the pattern occurs anywhere.
pub open spec fn pattern_found(readme: Seq<char>, i: int, pattern: Seq<char>) -> bool {
    if heading_check(i) {
        has_heading(lowered_bytes(readme), lowered_bytes(pattern))
    } else {
        contains_bytes(lowered_bytes(readme), lowered_bytes(pattern))
    }
}

/// Check `i` passes when one of its patterns is found.
pub open spec fn section_present(readme: Seq<char>, i: int) -> bool {
    exists|j: int| 0 <= j < section_patterns(i).len() && pattern_found(readme, i, #[trigger] section_patterns(i)[j])
}

/// The points earned by the first `k` checks.
pub open spec fn earned_points(readme: Seq<char>, k: int) -> nat
    decreases k,
{
    if k <= 0 {
        0
    } else {
        earned_points(readme, k - 1) + if section_present(readme, k - 1) {
            section_weight(k - 1)
        } else {
            0
        }
    }
}

/// The names of the checks among the first `k` whose kind is `required`.
pub open spec fn section_names(k: int, required: bool) -> Seq<Seq<char>>
    decreases k,
{
    if k <= 0 {
        seq![]
    } else if section_required(k - 1) == required {
        section_names(k - 1, required).push(section_name(k - 1))
    } else {
        section_names(k - 1, required)
    }
}

/// The names of the checks among the first `k`, of kind `required`, that fail on `readme`.
pub open spec fn missing_names(readme: Seq<char>, k: int, required: bool) -> Seq<Seq<char>>
    decreases k,
{
    if k <= 0 {
        seq![]
    } else if section_required(k - 1) == required && !section_present(readme, k - 1) {
        missing_names(readme, k - 1, required).push(section_name(k - 1))
    } else {
        missing_names(readme, k - 1, required)
    }
}

/// The score of a README: the points of the passing checks, less five points for each
/// missing required section in strict mode (never below zero), and at most 100.
pub open spec fn readme_score(readme: Seq<char>, strict: bool) -> int {
    let raw = earned_points(readme, SECTION_COUNT as int) as int;
    let penalty = if strict {
        5 * missing_names(readme, SECTION_COUNT as int, true).len()
    } else {
        0
    };
    let reduced = if raw >= penalty {
        raw - penalty
    } else {
        0
    };
    if reduced > 100 {
        100
    } else {
        reduced
    }
}

/// The tier of a score: `strong` from 85, `needs-work` from 60, `weak` below.
pub open spec fn status_for_score(score: int) -> AuditStatus {
    if score >= 85 {
        AuditStatus::Strong
    } else if score >= 60 {
        AuditStatus::NeedsWork
    } else {
        AuditStatus::Weak
    }
}

/// The note for a score below the target.
pub open spec fn below_target_note(score: nat, min_score: nat) -> Seq<char> {
    "Below target score ("@ + decimal(score) + " < "@ + decimal(min_score) + ")."@
}

/// The note for the strict-mode penalty.
pub open spec fn strict_penalty_note() -> Seq<char> {
    "Strict mode penalty applied due to missing required sections."@
}

/// The note for a repository without a README.
pub open spec fn missing_readme_note() -> Seq<char> {
    "README file is missing."@
}

/// The notes of an audit of a README with the given score.
pub open spec fn readme_notes(readme: Seq<char>, score: int, min_score: nat, strict: bool) -> Seq<Seq<char>> {
    let below: Seq<Seq<char>> = if score < min_score {
        seq![below_target_note(score as nat, min_score)]
    } else {
        seq![]
    };
    if strict && missing_names(readme, SECTION_COUNT as int, true).len() > 0 {
        below.push(strict_penalty_note())
    } else {
        below
    }
}

/// The outcome of auditing a repository whose README is `readme` (`None`: there is none).
pub open spec fn expected_audit(readme: Option<Seq<char>>, min_score: nat, strict: bool) -> AuditOutcome {
    match readme {
        None => AuditOutcome {
            score: 0,
            status: AuditStatus::MissingReadme,
            has_readme: false,
            missing_required: section_names(SECTION_COUNT as int, true),
            missing_recommended: section_names(SECTION_COUNT as int, false),
            notes: seq![missing_readme_note()],
        },
        Some(text) => {
            let score = readme_score(text, strict);
            AuditOutcome {
                score: score,
                status: status_for_score(score),
                has_readme: true,
                missing_required: missing_names(text, SECTION_COUNT as int, true),
                missing_recommended: missing_names(text, SECTION_COUNT as int, false),
                notes: readme_notes(text, score, min_score, strict),
            }
        },
    }
}

/// The text of an optional README.
pub open spec fn readme_text(readme: Option<&str>) -> Option<Seq<char>> {
    match readme {
        Some(t) => Some(t@),
        None => None,
    }
}

// ---------------------------------------------------------------------------
// Auditing
// ---------------------------------------------------------------------------

/// Whether check `i` passes, given the lowercased README bytes.
fn section_found(text: &[u8], i: usize, Ghost(readme): Ghost<Seq<char>>) -> (r: bool)
    requires
        i < SECTION_COUNT,
        text@ == lowered_bytes(readme),
    ensures
        r == section_present(readme, i as int),
{
    let patterns = section_patterns_list(i);
    let mut j: usize = 0;
    while j < patterns.len()
        invariant
            text@ == lowered_bytes(readme),
            name_texts(patterns@) == section_patterns(i as int),
            j <= patterns@.len(),
            forall|k: int| 0 <= k < j ==> !pattern_found(readme, i as int, #[trigger] section_patterns(i as int)[k]),
        decreases patterns@.len() - j,
    {
        let pattern = lower_bytes(patterns[j].as_bytes());
        assert(section_patterns(i as int)[j as int] == patterns@[j as int]@);
        let found = if i < 8 {
            find_heading(text, pattern.as_slice())
        } else {
            find_bytes(text, pattern.as_slice())
        };
        if found {
            return true;
        }
        j = j + 1;
    }
    false
}

/// The names of the required checks (`required`) or of the recommended ones, in order.
fn section_names_list(required: bool) -> (names: Vec<&'static str>)
    ensures
        name_texts(names@) == section_names(SECTION_COUNT as int, required),
{
    let mut names: Vec<&'static str> = Vec::new();
    let mut i: usize = 0;
    while i < SECTION_COUNT
        invariant
            i <= SECTION_COUNT,
            name_texts(names@) == section_names(i as int, required),
        decreases SECTION_COUNT - i,
    {
        if (i < 4) == required {
            names.push(section_name_str(i));
        }
        assert(name_texts(names@) =~= section_names(i + 1, required));
        i = i + 1;
    }
    names
}

/// The names of the required checks, in order.
pub fn required_section_names() -> (names: Vec<&'static str>)
    ensures
        name_texts(names@) == section_names(SECTION_COUNT as int, true),
{
    section_names_list(true)
}

/// The names of the recommended checks, in order.
pub fn recommended_section_names() -> (names: Vec<&'static str>)
    ensures
        name_texts(names@) == section_names(SECTION_COUNT as int, false),
{
    section_names_list(false)
}

/// Audits one repository: without a README it is `missing-readme` with score 0 and every
/// section missing; with one, each weighted check passes when one of its patterns is found
/// (ignoring ASCII case): as a heading of any level for the eight section checks, anywhere
/// for the hero block and the agent header. The score is the sum of the passing weights (less the
/// strict-mode penalty), the tier follows the score, and notes explain a score below
/// `min_score` and the strict-mode penalty.
pub fn audit_repo(repo: &RepoMetadata, readme: Option<&str>, min_score: u8, strict: bool) -> (audit: RepoAudit)
    ensures
        audit.repo == *repo,
        audit.outcome() == expected_audit(readme_text(readme), min_score as nat, strict),
{
    let contents = match readme {
        None => {
            let notes: Vec<String> = vec!["README file is missing.".to_owned()];
            let audit = RepoAudit {
                repo: repo.duplicate(),
                score: 0,
                status: AuditStatus::MissingReadme,
                has_readme: false,
                missing_required: required_section_names(),
                missing_recommended: recommended_section_names(),
                notes,
            };
            assert(string_texts(audit.notes@) =~= seq![missing_readme_note()]);
            return audit;
        },
        Some(contents) => contents,
    };
    let ghost text = contents@;
    let lowered = lower_bytes(contents.as_bytes());
    let mut score: u16 = 0;
    let mut missing_required: Vec<&'static str> = Vec::new();
    let mut missing_recommended: Vec<&'static str> = Vec::new();
    let mut i: usize = 0;
    while i < SECTION_COUNT
        invariant
            i <= SECTION_COUNT,
            lowered@ == lowered_bytes(text),
            score == earned_points(text, i as int),
            score <= 18 * i,
            name_texts(missing_required@) == missing_names(text, i as int, true),
            name_texts(missing_recommended@) == missing_names(text, i as int, false),
            missing_required@.len() <= i,
        decreases SECTION_COUNT - i,
    {
        if section_found(lowered.as_slice(), i, Ghost(text)) {
            score = score + section_weight_value(i);
        } else if i < 4 {
            missing_required.push(section_name_str(i));
        } else {
            missing_recommended.push(section_name_str(i));
        }
        assert(name_texts(missing_required@) =~= missing_names(text, i + 1, true));
        assert(name_texts(missing_recommended@) =~= missing_names(text, i + 1, false));
        i = i + 1;
    }
    if strict {
        let penalty = (missing_required.len() as u16) * 5;
        score = score.saturating_sub(penalty);
    }
    let score: u8 = if score > 100 { 100 } else { score as u8 };
    let status = if score >= 85 {
        AuditStatus::Strong
    } else if score >= 60 {
        AuditStatus::NeedsWork
    } else {
        AuditStatus::Weak
    };
    let mut notes: Vec<String> = Vec::new();
    if score < min_score {
        let mut note = "Below target score (".to_owned();
        push_decimal(&mut note, score as u64);
        note.append(" < ");
        push_decimal(&mut note, min_score as u64);
        note.append(").");
        notes.push(note);
    }
    if strict && missing_required.len() > 0 {
        notes.push("Strict mode penalty applied due to missing required sections.".to_owned());
    }
    let audit = RepoAudit {
        repo: repo.duplicate(),
        score,
        status,
        has_readme: true,
        missing_required,
        missing_recommended,
        notes,
    };
    assert(string_texts(audit.notes@) =~= readme_notes(text, score as int, min_score as nat, strict));
    audit
}


/// The notes of an audit whose README could not be fetched: the fetch error, then the
/// below-target note when the target is above zero.
pub open spec fn fetch_error_notes(error: Seq<char>, min_score: nat) -> Seq<Seq<char>> {
    if 0 < min_score {
        seq![error, below_target_note(0, min_score)]
    } else {
        seq![error]
    }
}

/// The outcome of auditing a repository whose README could not be fetched.
pub open spec fn expected_fetch_error_audit(error: Seq<char>, min_score: nat) -> AuditOutcome {
    AuditOutcome {
        score: 0,
        status: AuditStatus::FetchError,
        has_readme: false,
        missing_required: seq![],
        missing_recommended: seq![],
        notes: fetch_error_notes(error, min_score),
    }
}

/// Audits a repository whose README could not be fetched: `fetch-error` with score 0,
/// no section reported missing (nothing is known of them), and the fetch error as a note.
pub fn audit_fetch_error(repo: &RepoMetadata, error: &str, min_score: u8) -> (audit: RepoAudit)
    ensures
        audit.repo == *repo,
        audit.outcome() == expected_fetch_error_audit(error@, min_score as nat),
{
    let mut notes: Vec<String> = Vec::new();
    notes.push(error.to_owned());
    if 0 < min_score {
        let mut note = "Below target score (".to_owned();
        push_decimal(&mut note, 0);
        note.append(" < ");
        push_decimal(&mut note, min_score as u64);
        note.append(").");
        notes.push(note);
    }
    let audit = RepoAudit {
        repo: repo.duplicate(),
        score: 0,
        status: AuditStatus::FetchError,
        has_readme: false,
        missing_required: Vec::new(),
        missing_recommended: Vec::new(),
        notes,
    };
    assert(string_texts(audit.notes@) =~= fetch_error_notes(error@, min_score as nat));
    assert(name_texts(audit.missing_required@) =~= seq![]);
    assert(name_texts(audit.missing_recommended@) =~= seq![]);
    audit
}


// ---------------------------------------------------------------------------
// Ordering audits: by score, then by repository name
// ---------------------------------------------------------------------------

/// Strict lexicographic order on byte strings, the order of `String`'s `Ord`
/// (which compares the UTF-8 bytes).
pub open spec fn bytes_before(a: Seq<u8>, b: Seq<u8>) -> bool
    decreases a.len(),
{
    if b.len() == 0 {
        false
    } else if a.len() == 0 {
        true
    } else if a[0] != b[0] {
        a[0] < b[0]
    } else {
        bytes_before(a.drop_first(), b.drop_first())
    }
}

/// The bytes by which an audit's repository name is ordered.
pub open spec fn name_bytes(a: RepoAudit) -> Seq<u8> {
    encode_utf8(a.repo.name@)
}

/// `a` comes strictly before `b`: a lower score, or the same score and a smaller name.
pub open spec fn audit_before(a: RepoAudit, b: RepoAudit) -> bool {
    ||| a.score < b.score
    ||| a.score == b.score && bytes_before(name_bytes(a), name_bytes(b))
}

/// No audit of `s` comes strictly before one that precedes it.
pub open spec fn audits_sorted(s: Seq<RepoAudit>) -> bool {
    forall|p: int, q: int| 0 <= p < q < s.len() ==> !audit_before(#[trigger] s[q], #[trigger] s[p])
}

proof fn lemma_bytes_before_irreflexive(a: Seq<u8>)
    ensures
        !bytes_before(a, a),
    decreases a.len(),
{
    if a.len() > 0 {
        lemma_bytes_before_irreflexive(a.drop_first());
    }
}

proof fn lemma_bytes_before_asymmetric(a: Seq<u8>, b: Seq<u8>)
    ensures
        !(bytes_before(a, b) && bytes_before(b, a)),
    decreases a.len(),
{
    if a.len() > 0 && b.len() > 0 && a[0] == b[0] {
        lemma_bytes_before_asymmetric(a.drop_first(), b.drop_first());
    }
}

proof fn lemma_bytes_before_transitive(a: Seq<u8>, b: Seq<u8>, c: Seq<u8>)
    requires
        bytes_before(a, b),
        bytes_before(b, c),
    ensures
        bytes_before(a, c),
    decreases a.len(),
{
    if a.len() > 0 && b.len() > 0 && c.len() > 0 && a[0] == b[0] && b[0] == c[0] {
        lemma_bytes_before_transitive(a.drop_first(), b.drop_first(), c.drop_first());
    }
}

proof fn lemma_bytes_before_total(a: Seq<u8>, b: Seq<u8>)
    ensures
        a == b || bytes_before(a, b) || bytes_before(b, a),
    decreases a.len(),
{
    if a.len() > 0 && b.len() > 0 && a[0] == b[0] {
        lemma_bytes_before_total(a.drop_first(), b.drop_first());
        if a.drop_first() == b.drop_first() {
            assert(a =~= seq![a[0]] + a.drop_first());
            assert(b =~= seq![b[0]] + b.drop_first());
        }
    } else if a.len() == 0 && b.len() == 0 {
        assert(a =~= b);
    }
}

proof fn lemma_audit_before_asymmetric(x: RepoAudit, y: RepoAudit)
    ensures
        !(audit_before(x, y) && audit_before(y, x)),
{
    lemma_bytes_before_asymmetric(name_bytes(x), name_bytes(y));
}

/// "Not after" is transitive.
proof fn lemma_audit_not_after_transitive(x: RepoAudit, y: RepoAudit, z: RepoAudit)
    requires
        !audit_before(y, x),
        !audit_before(z, y),
    ensures
        !audit_before(z, x),
{
    lemma_bytes_before_total(name_bytes(x), name_bytes(y));
    if audit_before(z, x) && audit_before(x, y) {
        if z.score == x.score && x.score == y.score {
            lemma_bytes_before_transitive(name_bytes(z), name_bytes(x), name_bytes(y));
        }
    }
}

/// Whether `a` comes strictly before `b` in byte-wise lexicographic order.
fn bytes_less(a: &[u8], b: &[u8]) -> (r: bool)
    ensures
        r == bytes_before(a@, b@),
{
    let mut i: usize = 0;
    assert(a@.skip(0) =~= a@);
    assert(b@.skip(0) =~= b@);
    while i < a.len() && i < b.len() && a[i] == b[i]
        invariant
            i <= a@.len(),
            i <= b@.len(),
            bytes_before(a@, b@) == bytes_before(a@.skip(i as int), b@.skip(i as int)),
        decreases a@.len() - i,
    {
        let ghost x = a@.skip(i as int);
        let ghost y = b@.skip(i as int);
        assert(x.drop_first() =~= a@.skip(i + 1));
        assert(y.drop_first() =~= b@.skip(i + 1));
        i = i + 1;
    }
    if i == b.len() {
        false
    } else if i == a.len() {
        true
    } else {
        a[i] < b[i]
    }
}

/// Whether audit `a` comes strictly before audit `b`.
fn audit_less(a: &RepoAudit, b: &RepoAudit) -> (r: bool)
    ensures
        r == audit_before(*a, *b),
{
    if a.score != b.score {
        a.score < b.score
    } else {
        bytes_less(a.repo.name.as_str().as_bytes(), b.repo.name.as_str().as_bytes())
    }
}

/// `[T]::swap`: exchanges the elements at `a` and `b`.
#[verifier::external_body]
fn swap_entries<T>(items: &mut [T], a: usize, b: usize)
    requires
        a < old(items)@.len(),
        b < old(items)@.len(),
    ensures
        final(items)@ == old(items)@.update(a as int, old(items)@[b as int]).update(
            b as int,
            old(items)@[a as int],
        ),
{
    items.swap(a, b)
}

proof fn lemma_swap_multiset<T>(s: Seq<T>, a: int, b: int)
    requires
        0 <= a < s.len(),
        0 <= b < s.len(),
    ensures
        s.update(a, s[b]).update(b, s[a]).to_multiset() == s.to_multiset(),
{
    broadcast use vstd::seq_lib::to_multiset_update, vstd::multiset::group_multiset_axioms,
        vstd::seq_lib::to_multiset_contains;

    let t = s.update(a, s[b]);
    assert(t[b] == s[b]);
    s.to_multiset_ensures();
    t.to_multiset_ensures();
    assert(t.to_multiset() =~= s.to_multiset().insert(s[b]).remove(s[a]));
    assert(t.update(b, s[a]).to_multiset() =~= t.to_multiset().insert(s[a]).remove(t[b]));
    assert(t.update(b, s[a]).to_multiset() =~= s.to_multiset());
}

/// Neither audit comes before the other: the same score and the same name.
pub open spec fn same_key(a: RepoAudit, b: RepoAudit) -> bool {
    !audit_before(a, b) && !audit_before(b, a)
}

/// `result` holds the audits of `input` rearranged by `perm` (`result[k]` is
/// `input[perm[k]]`), and audits with the same key keep their relative order.
pub open spec fn stable_arrangement(result: Seq<RepoAudit>, input: Seq<RepoAudit>, perm: Seq<int>) -> bool {
    &&& perm.len() == result.len() == input.len()
    &&& forall|k: int| 0 <= k < perm.len() ==> 0 <= #[trigger] perm[k] < perm.len()
    &&& forall|k: int| 0 <= k < perm.len() ==> result[k] == input[#[trigger] perm[k]]
    &&& forall|a: int, b: int| 0 <= a < b < perm.len() ==> #[trigger] perm[a] != #[trigger] perm[b]
    &&& forall|p: int, q: int|
        0 <= p < q < perm.len() && same_key(#[trigger] result[p], #[trigger] result[q]) ==> perm[p] < perm[q]
}

/// Sorts audits by ascending score, then by repository name (stably: audits that agree
/// on both keep their order). The result is a permutation of the input.
pub fn sort_audits(audits: &mut [RepoAudit])
    ensures
        final(audits)@.to_multiset() == old(audits)@.to_multiset(),
        audits_sorted(final(audits)@),
        exists|perm: Seq<int>| stable_arrangement(final(audits)@, old(audits)@, perm),
        audits_sorted(old(audits)@) ==> final(audits)@ == old(audits)@,
{
    let n = audits.len();
    let ghost original = audits@;
    let ghost mut perm: Seq<int> = Seq::new(n as nat, |k: int| k);
    let mut i: usize = 0;
    while i < n
        invariant
            n == audits@.len(),
            original == old(audits)@,
            i <= n,
            audits@.to_multiset() == original.to_multiset(),
            forall|p: int, q: int| 0 <= p < q < i ==> !audit_before(#[trigger] audits@[q], #[trigger] audits@[p]),
            audits_sorted(original) ==> audits@ == original,
            perm.len() == n,
            forall|k: int| 0 <= k < n ==> audits@[k] == original[#[trigger] perm[k]],
            forall|k: int| i <= k < n ==> #[trigger] perm[k] == k,
            forall|k: int| 0 <= k < i ==> 0 <= #[trigger] perm[k] < i,
            forall|a: int, b: int| 0 <= a < b < n ==> #[trigger] perm[a] != #[trigger] perm[b],
            forall|p: int, q: int|
                0 <= p < q < i && same_key(#[trigger] audits@[p], #[trigger] audits@[q]) ==> perm[p] < perm[q],
        decreases n - i,
    {
        let mut j: usize = i;
        while j > 0 && audit_less(&audits[j], &audits[j - 1])
            invariant
                n == audits@.len(),
                j <= i < n,
                audits@.to_multiset() == original.to_multiset(),
                forall|p: int, q: int|
                    0 <= p < q <= i && p != j && q != j ==> !audit_before(#[trigger] audits@[q], #[trigger] audits@[p]),
                forall|q: int| j < q <= i ==> audit_before(audits@[j as int], #[trigger] audits@[q]),
                audits_sorted(original) ==> audits@ == original && j == i,
                perm.len() == n,
                forall|k: int| 0 <= k < n ==> audits@[k] == original[#[trigger] perm[k]],
                forall|k: int| i < k < n ==> #[trigger] perm[k] == k,
                perm[j as int] == i,
                forall|k: int| 0 <= k <= i && k != j ==> 0 <= #[trigger] perm[k] < i,
                forall|a: int, b: int| 0 <= a < b < n ==> #[trigger] perm[a] != #[trigger] perm[b],
                forall|p: int, q: int|
                    0 <= p < q <= i && p != j && q != j && same_key(#[trigger] audits@[p], #[trigger] audits@[q])
                        ==> perm[p] < perm[q],
            decreases j,
        {
            let ghost before_swap = audits@;
            let ghost old_perm = perm;
            proof {
                lemma_swap_multiset(before_swap, (j - 1) as int, j as int);
                if audits_sorted(original) {
                    assert(!audit_before(original[j as int], original[j - 1]));
                }
                perm = perm.update(j - 1, old_perm[j as int]).update(j as int, old_perm[j - 1]);
            }
            swap_entries(audits, j - 1, j);
            proof {
                assert forall|a: int, b: int| 0 <= a < b < n implies #[trigger] perm[a] != #[trigger] perm[b] by {
                    assert(old_perm[a] != old_perm[j as int] || a == j);
                }
            }
            j = j - 1;
        }
        proof {
            assert forall|p: int, q: int| 0 <= p < q <= i implies !audit_before(#[trigger] audits@[q], #[trigger] audits@[p]) by {
                if q == j && p < j {
                    if p < j - 1 {
                        lemma_audit_not_after_transitive(audits@[p], audits@[j - 1], audits@[j as int]);
                    }
                }
                if p == j {
                    lemma_audit_before_asymmetric(audits@[p], audits@[q]);
                }
            }
        }
        i = i + 1;
    }
    assert(stable_arrangement(audits@, original, perm));
}

// ---------------------------------------------------------------------------
// Counts over a list of audits
// ---------------------------------------------------------------------------

/// The counts behind an audit summary: how many repositories were audited, how many had
/// a README, how many scored below the target, and the sum of their scores.
#[derive(Clone, Copy, Debug, PartialEq, Eq, Structural)]
pub struct AuditTally {
    pub total: usize,
    pub with_readme: usize,
    pub below_threshold: usize,
    pub score_sum: u128,
}

/// The number of audits of `s` that found a README.
pub open spec fn count_with_readme(s: Seq<RepoAudit>) -> nat
    decreases s.len(),
{
    if s.len() == 0 {
        0
    } else {
        count_with_readme(s.drop_last()) + if s.last().has_readme {
            1nat
        } else {
            0nat
        }
    }
}

/// The number of audits of `s` scoring below `min_score`.
pub open spec fn count_below(s: Seq<RepoAudit>, min_score: nat) -> nat
    decreases s.len(),
{
    if s.len() == 0 {
        0
    } else {
        count_below(s.drop_last(), min_score) + if (s.last().score as nat) < min_score {
            1nat
        } else {
            0nat
        }
    }
}

/// The sum of the scores of `s`.
pub open spec fn score_total(s: Seq<RepoAudit>) -> nat
    decreases s.len(),
{
    if s.len() == 0 {
        0
    } else {
        score_total(s.drop_last()) + s.last().score as nat
    }
}

proof fn lemma_counts_bounded(s: Seq<RepoAudit>, min_score: nat)
    ensures
        count_with_readme(s) <= s.len(),
        count_below(s, min_score) <= s.len(),
        score_total(s) <= 255 * s.len(),
    decreases s.len(),
{
    if s.len() > 0 {
        lemma_counts_bounded(s.drop_last(), min_score);
    }
}

/// Counts the audits of `audits`: all of them, those with a README, those scoring below
/// `min_score`, and the sum of their scores.
pub fn tally_audits(audits: &[RepoAudit], min_score: u8) -> (t: AuditTally)
    ensures
        t.total == audits@.len(),
        t.with_readme == count_with_readme(audits@),
        t.below_threshold == count_below(audits@, min_score as nat),
        t.score_sum == score_total(audits@),
{
    let n = audits.len();
    let mut with_readme: usize = 0;
    let mut below: usize = 0;
    let mut sum: u128 = 0;
    let mut i: usize = 0;
    while i < n
        invariant
            n == audits@.len(),
            i <= n,
            with_readme == count_with_readme(audits@.take(i as int)),
            below == count_below(audits@.take(i as int), min_score as nat),
            sum == score_total(audits@.take(i as int)),
        decreases n - i,
    {
        let ghost prefix = audits@.take(i + 1);
        assert(prefix.drop_last() =~= audits@.take(i as int));
        proof {
            lemma_counts_bounded(audits@.take(i as int), min_score as nat);
        }
        assert(255 * i <= 255 * n) by (nonlinear_arith)
            requires
                i <= n,
        ;
        let a = &audits[i];
        if a.has_readme {
            with_readme = with_readme + 1;
        }
        if a.score < min_score {
            below = below + 1;
        }
        sum = sum + a.score as u128;
        i = i + 1;
    }
    assert(audits@.take(n as int) =~= audits@);
    AuditTally { total: n, with_readme, below_threshold: below, score_sum: sum }
}

// ---------------------------------------------------------------------------
// Properties of the scoring model
// ---------------------------------------------------------------------------

/// The weights of the first `k` checks, added up.
pub open spec fn total_weight(k: int) -> nat
    decreases k,
{
    if k <= 0 {
        0
    } else {
        total_weight(k - 1) + section_weight(k - 1)
    }
}

/// The points of the checks among the first `k` that fail on `readme`.
pub open spec fn missing_points(readme: Seq<char>, k: int) -> nat
    decreases k,
{
    if k <= 0 {
        0
    } else {
        missing_points(readme, k - 1) + if section_present(readme, k - 1) {
            0
        } else {
            section_weight(k - 1)
        }
    }
}

/// The weights of all checks add up to 100 points.
pub proof fn lemma_weights_total()
    ensures
        total_weight(SECTION_COUNT as int) == 100,
{
    reveal_with_fuel(total_weight, 11);
}

/// Every check either earns its points or is lost: earned and lost points add up to 100.
pub proof fn lemma_points_partition(readme: Seq<char>)
    ensures
        earned_points(readme, SECTION_COUNT as int) + missing_points(readme, SECTION_COUNT as int) == 100,
{
    lemma_points_partition_upto(readme, SECTION_COUNT as int);
    lemma_weights_total();
}

proof fn lemma_points_partition_upto(readme: Seq<char>, k: int)
    requires
        k >= 0,
    ensures
        earned_points(readme, k) + missing_points(readme, k) == total_weight(k),
    decreases k,
{
    if k > 0 {
        lemma_points_partition_upto(readme, k - 1);
    }
}

/// The number of checks among the first `k` that fail on `readme`.
pub open spec fn failing_count(readme: Seq<char>, k: int) -> nat
    decreases k,
{
    if k <= 0 {
        0
    } else {
        failing_count(readme, k - 1) + if section_present(readme, k - 1) {
            0nat
        } else {
            1nat
        }
    }
}

/// Each failing check is reported in exactly one of the two missing lists.
pub proof fn lemma_missing_lists_partition(readme: Seq<char>, k: int)
    requires
        k >= 0,
    ensures
        missing_names(readme, k, true).len() + missing_names(readme, k, false).len() == failing_count(readme, k),
    decreases k,
{
    if k > 0 {
        lemma_missing_lists_partition(readme, k - 1);
    }
}

proof fn lemma_missing_points_zero(readme: Seq<char>, k: int)
    requires
        0 <= k <= SECTION_COUNT,
    ensures
        (missing_points(readme, k) == 0) <==> (failing_count(readme, k) == 0),
    decreases k,
{
    if k > 0 {
        lemma_missing_points_zero(readme, k - 1);
    }
}

/// Without the strict penalty, a README scores the full 100 points exactly when no section
/// is reported missing.
pub proof fn lemma_full_score_iff_nothing_missing(readme: Seq<char>)
    ensures
        (readme_score(readme, false) == 100) <==> (missing_names(readme, SECTION_COUNT as int, true).len() == 0
            && missing_names(readme, SECTION_COUNT as int, false).len() == 0),
{
    lemma_points_partition(readme);
    lemma_missing_lists_partition(readme, SECTION_COUNT as int);
    lemma_missing_points_zero(readme, SECTION_COUNT as int);
}

/// Every score lies between 0 and 100, and its tier is `strong` from 85, `needs-work` from
/// 60 and `weak` below.
pub proof fn lemma_score_and_tier(readme: Seq<char>, min_score: nat, strict: bool)
    ensures
        0 <= expected_audit(Some(readme), min_score, strict).score <= 100,
        expected_audit(Some(readme), min_score, strict).status == AuditStatus::Strong <==> expected_audit(
            Some(readme),
            min_score,
            strict,
        ).score >= 85,
        expected_audit(Some(readme), min_score, strict).status == AuditStatus::NeedsWork <==> 60
            <= expected_audit(Some(readme), min_score, strict).score < 85,
        expected_audit(Some(readme), min_score, strict).status == AuditStatus::Weak <==> expected_audit(
            Some(readme),
            min_score,
            strict,
        ).score < 60,
{
}

/// Strict mode only ever lowers a score, by five points per missing required section (and
/// not below zero).
pub proof fn lemma_strict_penalty(readme: Seq<char>)
    ensures
        readme_score(readme, true) <= readme_score(readme, false),
        readme_score(readme, true) == if readme_score(readme, false) >= 5 * missing_names(
            readme,
            SECTION_COUNT as int,
            true,
        ).len() {
            readme_score(readme, false) - 5 * missing_names(readme, SECTION_COUNT as int, true).len()
        } else {
            0
        },
{
    lemma_points_partition(readme);
}

proof fn lemma_same_lowered_same_points(r1: Seq<char>, r2: Seq<char>, k: int)
    requires
        lowered_bytes(r1) == lowered_bytes(r2),
    ensures
        earned_points(r1, k) == earned_points(r2, k),
        missing_names(r1, k, true) == missing_names(r2, k, true),
        missing_names(r1, k, false) == missing_names(r2, k, false),
    decreases k,
{
    if k > 0 {
        lemma_same_lowered_same_points(r1, r2, k - 1);
        assert(section_present(r1, k - 1) == section_present(r2, k - 1));
    }
}

/// Section matching ignores ASCII case: two READMEs that agree once ASCII letters are
/// lowered get the same audit.
pub proof fn lemma_case_insensitive(r1: Seq<char>, r2: Seq<char>, min_score: nat, strict: bool)
    requires
        lowered_bytes(r1) == lowered_bytes(r2),
    ensures
        expected_audit(Some(r1), min_score, strict) == expected_audit(Some(r2), min_score, strict),
{
    lemma_same_lowered_same_points(r1, r2, SECTION_COUNT as int);
}

/// The tallies never exceed the number of audits.
pub proof fn lemma_tally_bounds(audits: Seq<RepoAudit>, min_score: nat)
    ensures
        count_with_readme(audits) <= audits.len(),
        count_below(audits, min_score) <= audits.len(),
        score_total(audits) <= 255 * audits.len(),
{
    lemma_counts_bounded(audits, min_score);
}

/// The five status labels are distinct.
pub proof fn lemma_status_labels_distinct(a: AuditStatus, b: AuditStatus)
    ensures
        a.label() == b.label() <==> a == b,
{
    reveal_strlit("strong");
    reveal_strlit("needs-work");
    reveal_strlit("weak");
    reveal_strlit("missing-readme");
    reveal_strlit("fetch-error");
    if a != b {
        assert(a.label().len() != b.label().len() || a.label()[0] != b.label()[0]);
    }
}


proof fn lemma_encode_concat(a: Seq<char>, b: Seq<char>)
    ensures
        encode_utf8(a + b) == encode_utf8(a) + encode_utf8(b),
    decreases a.len(),
{
    if a.len() == 0 {
        assert(a + b =~= b);
        assert(encode_utf8(a) + encode_utf8(b) =~= encode_utf8(b));
    } else {
        lemma_encode_concat(a.drop_first(), b);
        assert((a + b).drop_first() =~= a.drop_first() + b);
        assert((a + b)[0] == a[0]);
        assert(encode_utf8(a + b) =~= encode_utf8(a) + encode_utf8(b));
    }
}

proof fn lemma_lowered_concat(a: Seq<char>, b: Seq<char>)
    ensures
        lowered_bytes(a + b) == lowered_bytes(a) + lowered_bytes(b),
{
    lemma_encode_concat(a, b);
    assert(crate::text::ascii_lower(encode_utf8(a) + encode_utf8(b)) =~= crate::text::ascii_lower(encode_utf8(a))
        + crate::text::ascii_lower(encode_utf8(b)));
}

proof fn lemma_contains_in_context(x: Seq<u8>, t: Seq<u8>, y: Seq<u8>, pattern: Seq<u8>)
    requires
        contains_bytes(t, pattern),
    ensures
        contains_bytes(x + t + y, pattern),
{
    let i = choose|i: int| crate::text::occurs_at(t, pattern, i);
    let whole = x + t + y;
    assert(whole.subrange(x.len() + i, x.len() + i + pattern.len()) =~= t.subrange(i, i + pattern.len()));
    assert(crate::text::occurs_at(whole, pattern, x.len() + i));
}

/// `s` is empty or ends with a line break: what follows it starts a line.
pub open spec fn ends_line(s: Seq<char>) -> bool {
    s.len() == 0 || s.last() == '\n'
}

proof fn lemma_ends_line_bytes(s: Seq<char>)
    requires
        ends_line(s),
    ensures
        lowered_bytes(s).len() == 0 || lowered_bytes(s).last() == 10,
{
    if s.len() == 0 {
        assert(encode_utf8(s) =~= Seq::<u8>::empty());
    } else {
        let nl = Seq::new(1, |k: int| '\n');
        assert(s =~= s.drop_last() + nl);
        lemma_lowered_concat(s.drop_last(), nl);
        lemma_lowered_ascii_run(1, '\n', 10u8);
    }
}

/// A check that passes on `middle` passes on any README that contains `middle` after a
/// line break (or at its start).
proof fn lemma_context_keeps_section(before: Seq<char>, middle: Seq<char>, after: Seq<char>, i: int)
    requires
        section_present(middle, i),
        ends_line(before),
    ensures
        section_present(before + middle + after, i),
{
    let j = choose|j: int| 0 <= j < section_patterns(i).len() && pattern_found(middle, i, #[trigger] section_patterns(i)[j]);
    let p = section_patterns(i)[j];
    lemma_lowered_concat(before, middle);
    lemma_lowered_concat(before + middle, after);
    if heading_check(i) {
        lemma_ends_line_bytes(before);
        lemma_heading_in_context(lowered_bytes(before), lowered_bytes(middle), lowered_bytes(after), lowered_bytes(p));
    } else {
        lemma_contains_in_context(lowered_bytes(before), lowered_bytes(middle), lowered_bytes(after), lowered_bytes(p));
    }
    assert(pattern_found(before + middle + after, i, section_patterns(i)[j]));
}

proof fn lemma_context_keeps_sections(before: Seq<char>, middle: Seq<char>, after: Seq<char>, k: int)
    requires
        ends_line(before),
    ensures
        earned_points(middle, k) <= earned_points(before + middle + after, k),
        missing_names(before + middle + after, k, true).len() <= missing_names(middle, k, true).len(),
        missing_names(before + middle + after, k, false).len() <= missing_names(middle, k, false).len(),
        forall|x: Seq<char>| #[trigger] missing_names(before + middle + after, k, true).contains(x) ==> missing_names(middle, k, true).contains(x),
        forall|x: Seq<char>| #[trigger] missing_names(before + middle + after, k, false).contains(x) ==> missing_names(middle, k, false).contains(x),
    decreases k,
{
    if k > 0 {
        let whole = before + middle + after;
        lemma_context_keeps_sections(before, middle, after, k - 1);
        if section_present(middle, k - 1) {
            lemma_context_keeps_section(before, middle, after, k - 1);
        }
        assert forall|x: Seq<char>| #[trigger] missing_names(whole, k, true).contains(x) implies missing_names(middle, k, true).contains(x) by {
            lemma_push_contains(missing_names(whole, k - 1, true), section_name(k - 1), x);
            lemma_push_contains(missing_names(middle, k - 1, true), section_name(k - 1), x);
        }
        assert forall|x: Seq<char>| #[trigger] missing_names(whole, k, false).contains(x) implies missing_names(middle, k, false).contains(x) by {
            lemma_push_contains(missing_names(whole, k - 1, false), section_name(k - 1), x);
            lemma_push_contains(missing_names(middle, k - 1, false), section_name(k - 1), x);
        }
    }
}

proof fn lemma_push_contains(s: Seq<Seq<char>>, a: Seq<char>, x: Seq<char>)
    ensures
        s.push(a).contains(x) <==> (s.contains(x) || a == x),
{
    if s.push(a).contains(x) {
        let idx = choose|idx: int| 0 <= idx < s.push(a).len() && #[trigger] s.push(a)[idx] == x;
        if idx < s.len() {
            assert(s[idx] == x);
        }
    }
    if s.contains(x) {
        let idx = choose|idx: int| 0 <= idx < s.len() && #[trigger] s[idx] == x;
        assert(s.push(a)[idx] == x);
    }
    if a == x {
        assert(s.push(a)[s.len() as int] == x);
    }
}

/// More text never lowers a score, in strict mode or not, and never adds a missing
/// section: a README that contains another one, starting on a line of its own, scores at
/// least as much, and each of its missing-section lists is no longer and names only
/// sections that the other one misses too.
pub proof fn lemma_more_text_never_scores_less(before: Seq<char>, middle: Seq<char>, after: Seq<char>, strict: bool)
    requires
        ends_line(before),
    ensures
        readme_score(middle, strict) <= readme_score(before + middle + after, strict),
        missing_names(before + middle + after, SECTION_COUNT as int, true).len() <= missing_names(
            middle,
            SECTION_COUNT as int,
            true,
        ).len(),
        missing_names(before + middle + after, SECTION_COUNT as int, false).len() <= missing_names(
            middle,
            SECTION_COUNT as int,
            false,
        ).len(),
        forall|x: Seq<char>|
            #[trigger] missing_names(before + middle + after, SECTION_COUNT as int, true).contains(x)
                ==> missing_names(middle, SECTION_COUNT as int, true).contains(x),
        forall|x: Seq<char>|
            #[trigger] missing_names(before + middle + after, SECTION_COUNT as int, false).contains(x)
                ==> missing_names(middle, SECTION_COUNT as int, false).contains(x),
{
    lemma_context_keeps_sections(before, middle, after, SECTION_COUNT as int);
}

proof fn lemma_title_start(i: int, j: int)
    requires
        heading_check(i),
        0 <= j < section_patterns(i).len(),
    ensures
        lowered_bytes(section_patterns(i)[j]).len() > 0,
        97 <= lowered_bytes(section_patterns(i)[j])[0] <= 122,
{
    reveal_strlit("features");
    reveal_strlit("quick start");
    reveal_strlit("getting started");
    reveal_strlit("architecture");
    reveal_strlit("license");
    reveal_strlit("tech stack");
    reveal_strlit("usage");
    reveal_strlit("cli options");
    reveal_strlit("commands");
    reveal_strlit("run tests");
    reveal_strlit("testing");
    reveal_strlit("deploy");
    reveal_strlit("deployment");
    lemma_first_lowered_byte(section_patterns(i)[j]);
}

/// A heading of any level names its section: a line made of optional indentation, one or
/// more `#`, a space and one of a check's titles (in any ASCII case, followed by anything)
/// passes that heading check, wherever the line stands in the README.
pub proof fn lemma_heading_level_counts(
    before: Seq<char>,
    indent: nat,
    level: nat,
    title: Seq<char>,
    after: Seq<char>,
    i: int,
    j: int,
)
    requires
        heading_check(i),
        0 <= j < section_patterns(i).len(),
        level >= 1,
        ends_line(before),
        lowered_bytes(title) == lowered_bytes(section_patterns(i)[j]),
    ensures
        section_present(
            before + (Seq::new(indent, |k: int| ' ') + Seq::new(level, |k: int| '#') + seq![' '] + title) + after,
            i,
        ),
{
    let p = section_patterns(i)[j];
    let spaces = Seq::new(indent, |k: int| ' ');
    let hashes = Seq::new(level, |k: int| '#');
    let gap = Seq::new(1, |k: int| ' ');
    assert(seq![' '] =~= gap);
    let middle = spaces + hashes + gap + title;
    lemma_lowered_ascii_run(indent, ' ', 32u8);
    lemma_lowered_ascii_run(level, '#', 35u8);
    lemma_lowered_ascii_run(1, ' ', 32u8);
    lemma_lowered_concat(spaces, hashes);
    lemma_lowered_concat(spaces + hashes, gap);
    lemma_lowered_concat(spaces + hashes + gap, title);
    lemma_title_start(i, j);
    let t = lowered_bytes(middle);
    let pb = lowered_bytes(p);
    let a = indent as int;
    let h = a + level;
    assert(t =~= Seq::new(indent, |k: int| 32u8) + Seq::new(level, |k: int| 35u8) + Seq::new(1, |k: int| 32u8) + pb);
    lemma_skip_blank_run(t, 0, indent);
    assert(t[a] == 35u8);
    lemma_skip_hash_run(t, a, level);
    assert(t[h] == 32u8);
    lemma_skip_blank_run(t, h, 1);
    assert(t[h + 1] == pb[0]);
    assert(t.subrange(h + 1, h + 1 + pb.len()) =~= pb);
    assert(heading_at(t, 0, pb));
    assert(has_heading(t, pb));
    assert(pattern_found(middle, i, p));
    lemma_context_keeps_section(before, middle, after, i);
}

/// Text in which no line begins, after blanks, with `#` earns none of the heading checks'
/// points: "C# features" in prose is no heading.
pub proof fn lemma_no_heading_line_no_heading_points(readme: Seq<char>)
    requires
        no_heading_line(lowered_bytes(readme)),
    ensures
        forall|i: int| heading_check(i) ==> !#[trigger] section_present(readme, i),
        earned_points(readme, 8) == 0,
{
    let b = lowered_bytes(readme);
    assert forall|i: int| heading_check(i) implies !#[trigger] section_present(readme, i) by {
        if section_present(readme, i) {
            let j = choose|j: int| 0 <= j < section_patterns(i).len() && pattern_found(readme, i, #[trigger] section_patterns(i)[j]);
            let pb = lowered_bytes(section_patterns(i)[j]);
            let q = choose|q: int| 0 <= q <= b.len() && line_start(b, q) && #[trigger] heading_at(b, q, pb);
            let j0 = skip_blanks(b, q);
            assert(skip_hashes(b, j0) != j0);
            assert(heading_line_at(b, q));
        }
    }
    lemma_no_points_below(readme, 8);
}

proof fn lemma_no_points_below(readme: Seq<char>, k: int)
    requires
        k <= 8,
        forall|i: int| heading_check(i) ==> !#[trigger] section_present(readme, i),
    ensures
        earned_points(readme, k) == 0,
    decreases k,
{
    if k > 0 {
        lemma_no_points_below(readme, k - 1);
        assert(!section_present(readme, k - 1));
    }
}

/// The sum of `f` over the audits of `s`.
pub open spec fn total_of(s: Seq<RepoAudit>, f: spec_fn(RepoAudit) -> nat) -> nat
    decreases s.len(),
{
    if s.len() == 0 {
        0
    } else {
        total_of(s.drop_last(), f) + f(s.last())
    }
}

proof fn lemma_total_remove(s: Seq<RepoAudit>, f: spec_fn(RepoAudit) -> nat, i: int)
    requires
        0 <= i < s.len(),
    ensures
        total_of(s, f) == total_of(s.remove(i), f) + f(s[i]),
    decreases s.len(),
{
    if i < s.len() - 1 {
        lemma_total_remove(s.drop_last(), f, i);
        assert(s.remove(i).drop_last() =~= s.drop_last().remove(i));
        assert(s.remove(i).last() == s.last());
    } else {
        assert(s.remove(i) =~= s.drop_last());
    }
}

proof fn lemma_total_permutation(a: Seq<RepoAudit>, b: Seq<RepoAudit>, f: spec_fn(RepoAudit) -> nat)
    requires
        a.to_multiset() == b.to_multiset(),
    ensures
        total_of(a, f) == total_of(b, f),
    decreases a.len(),
{
    broadcast use vstd::seq_lib::to_multiset_remove, vstd::seq_lib::to_multiset_contains,
        vstd::seq_lib::to_multiset_len, vstd::multiset::group_multiset_axioms;

    if a.len() == 0 {
        assert(b.to_multiset().len() == 0);
        assert(b.len() == 0);
    } else {
        let x = a.last();
        assert(a.to_multiset().count(x) > 0) by {
            assert(a.contains(x)) by {
                assert(a[a.len() - 1] == x);
            }
        }
        assert(b.contains(x));
        let i = choose|i: int| 0 <= i < b.len() && b[i] == x;
        assert(a.remove(a.len() - 1) =~= a.drop_last());
        assert(a.drop_last().to_multiset() == a.to_multiset().remove(x));
        assert(b.remove(i).to_multiset() == b.to_multiset().remove(x));
        lemma_total_permutation(a.drop_last(), b.remove(i), f);
        lemma_total_remove(b, f, i);
    }
}

/// One for an audit with a README.
pub open spec fn readme_unit(a: RepoAudit) -> nat {
    if a.has_readme {
        1
    } else {
        0
    }
}

/// One for an audit scoring below `min_score`.
pub open spec fn below_unit(a: RepoAudit, min_score: nat) -> nat {
    if (a.score as nat) < min_score {
        1
    } else {
        0
    }
}

proof fn lemma_counts_are_totals(s: Seq<RepoAudit>, min_score: nat)
    ensures
        count_with_readme(s) == total_of(s, |a: RepoAudit| readme_unit(a)),
        count_below(s, min_score) == total_of(s, |a: RepoAudit| below_unit(a, min_score)),
        score_total(s) == total_of(s, |a: RepoAudit| a.score as nat),
    decreases s.len(),
{
    if s.len() > 0 {
        lemma_counts_are_totals(s.drop_last(), min_score);
    }
}

/// The counts of a summary do not depend on the order of the audits: any rearrangement of
/// the same audits has the same number with a README, below the target, and score sum.
pub proof fn lemma_counts_order_independent(a: Seq<RepoAudit>, b: Seq<RepoAudit>, min_score: nat)
    requires
        a.to_multiset() == b.to_multiset(),
    ensures
        a.len() == b.len(),
        count_with_readme(a) == count_with_readme(b),
        count_below(a, min_score) == count_below(b, min_score),
        score_total(a) == score_total(b),
{
    broadcast use vstd::seq_lib::to_multiset_len;

    assert(a.to_multiset().len() == a.len());
    assert(b.to_multiset().len() == b.len());
    lemma_counts_are_totals(a, min_score);
    lemma_counts_are_totals(b, min_score);
    lemma_total_permutation(a, b, |x: RepoAudit| readme_unit(x));
    lemma_total_permutation(a, b, |x: RepoAudit| below_unit(x, min_score));
    lemma_total_permutation(a, b, |x: RepoAudit| x.score as nat);
}

/// A heading line as it is written: `indent` spaces, `level` hashes, a space and `title`.
pub open spec fn heading_line(indent: nat, level: nat, title: Seq<char>) -> Seq<char> {
    Seq::new(indent, |k: int| ' ') + Seq::new(level, |k: int| '#') + seq![' '] + title
}

/// The titles of the section checks: a heading (of any level, after a line break or at the
/// start) titled `features` passes Features; `quick start` or `getting started`, Quick
/// Start; `architecture`, Architecture; `license`, License; `tech stack`, Tech Stack;
/// `usage`, `cli options` or `commands`, Usage; `run tests` or `testing`, Run Tests;
/// `deploy` or `deployment`, Deploy. Letter case does not matter (`lemma_case_insensitive`).
pub proof fn lemma_section_titles(before: Seq<char>, indent: nat, level: nat, after: Seq<char>)
    requires
        level >= 1,
        ends_line(before),
    ensures
        section_present(before + heading_line(indent, level, "features"@) + after, 0),
        section_present(before + heading_line(indent, level, "quick start"@) + after, 1),
        section_present(before + heading_line(indent, level, "getting started"@) + after, 1),
        section_present(before + heading_line(indent, level, "architecture"@) + after, 2),
        section_present(before + heading_line(indent, level, "license"@) + after, 3),
        section_present(before + heading_line(indent, level, "tech stack"@) + after, 4),
        section_present(before + heading_line(indent, level, "usage"@) + after, 5),
        section_present(before + heading_line(indent, level, "cli options"@) + after, 5),
        section_present(before + heading_line(indent, level, "commands"@) + after, 5),
        section_present(before + heading_line(indent, level, "run tests"@) + after, 6),
        section_present(before + heading_line(indent, level, "testing"@) + after, 6),
        section_present(before + heading_line(indent, level, "deploy"@) + after, 7),
        section_present(before + heading_line(indent, level, "deployment"@) + after, 7),
{
    lemma_heading_level_counts(before, indent, level, "features"@, after, 0, 0);
    lemma_heading_level_counts(before, indent, level, "quick start"@, after, 1, 0);
    lemma_heading_level_counts(before, indent, level, "getting started"@, after, 1, 1);
    lemma_heading_level_counts(before, indent, level, "architecture"@, after, 2, 0);
    lemma_heading_level_counts(before, indent, level, "license"@, after, 3, 0);
    lemma_heading_level_counts(before, indent, level, "tech stack"@, after, 4, 0);
    lemma_heading_level_counts(before, indent, level, "usage"@, after, 5, 0);
    lemma_heading_level_counts(before, indent, level, "cli options"@, after, 5, 1);
    lemma_heading_level_counts(before, indent, level, "commands"@, after, 5, 2);
    lemma_heading_level_counts(before, indent, level, "run tests"@, after, 6, 0);
    lemma_heading_level_counts(before, indent, level, "testing"@, after, 6, 1);
    lemma_heading_level_counts(before, indent, level, "deploy"@, after, 7, 0);
    lemma_heading_level_counts(before, indent, level, "deployment"@, after, 7, 1);
}

/// `a` and `b` first differ at position `k`.
pub open spec fn first_difference_at(a: Seq<u8>, b: Seq<u8>, k: int) -> bool {
    &&& 0 <= k < a.len()
    &&& k < b.len()
    &&& a.take(k) == b.take(k)
    &&& a[k] != b[k]
}

/// `a` comes before `b` in lexicographic byte order: `a` is a proper prefix of `b`, or the
/// byte of `a` is the smaller one where they first differ.
pub open spec fn lex_before(a: Seq<u8>, b: Seq<u8>) -> bool {
    ||| a.len() < b.len() && b.take(a.len() as int) == a
    ||| exists|k: int| #[trigger] first_difference_at(a, b, k) && a[k] < b[k]
}

/// Names are ordered as `str::cmp` orders them, byte by byte: `a` comes before `b` exactly
/// when `a` is a proper prefix of `b`, or the byte of `a` is smaller where they first differ.
pub proof fn lemma_name_order_is_lexicographic(a: Seq<u8>, b: Seq<u8>)
    ensures
        bytes_before(a, b) == lex_before(a, b),
    decreases a.len(),
{
    if b.len() == 0 {
    } else if a.len() == 0 {
        assert(b.take(0) =~= a);
    } else if a[0] != b[0] {
        assert(a.take(0) =~= b.take(0));
        assert(first_difference_at(a, b, 0));
        if a.len() < b.len() && b.take(a.len() as int) == a {
            assert(b.take(a.len() as int)[0] == b[0]);
        }
        assert forall|k: int| #[trigger] first_difference_at(a, b, k) implies k == 0 by {
            if k > 0 {
                assert(a.take(k)[0] == b.take(k)[0]);
            }
        }
    } else {
        let a1 = a.drop_first();
        let b1 = b.drop_first();
        lemma_name_order_is_lexicographic(a1, b1);
        if a1.len() < b1.len() && b1.take(a1.len() as int) == a1 {
            assert forall|i: int| 0 <= i < a.len() implies #[trigger] b.take(a.len() as int)[i] == a[i] by {
                if i > 0 {
                    assert(b1.take(a1.len() as int)[i - 1] == a1[i - 1]);
                }
            }
            assert(b.take(a.len() as int) =~= a);
        }
        if a.len() < b.len() && b.take(a.len() as int) == a {
            assert(b1.take(a1.len() as int) =~= a1);
        }
        if exists|k: int| #[trigger] first_difference_at(a1, b1, k) && a1[k] < b1[k] {
            let k = choose|k: int| #[trigger] first_difference_at(a1, b1, k) && a1[k] < b1[k];
            assert(a.take(k + 1) =~= seq![a[0]] + a1.take(k));
            assert(b.take(k + 1) =~= seq![b[0]] + b1.take(k));
            assert(first_difference_at(a, b, k + 1));
        }
        if exists|k: int| #[trigger] first_difference_at(a, b, k) && a[k] < b[k] {
            let k = choose|k: int| #[trigger] first_difference_at(a, b, k) && a[k] < b[k];
            assert(k != 0);
            assert(a.take(k).drop_first() =~= a1.take(k - 1));
            assert(b.take(k).drop_first() =~= b1.take(k - 1));
            assert(first_difference_at(a1, b1, k - 1));
        }
    }
}

/// The READMEs counted are the audits that have a README, and those below the target are
/// the audits whose score is below it.
pub proof fn lemma_counts_are_filters(audits: Seq<RepoAudit>, min_score: nat)
    ensures
        count_with_readme(audits) == audits.filter(|a: RepoAudit| a.has_readme).len(),
        count_below(audits, min_score) == audits.filter(|a: RepoAudit| (a.score as nat) < min_score).len(),
    decreases audits.len(),
{
    reveal(Seq::filter);
    if audits.len() > 0 {
        lemma_counts_are_filters(audits.drop_last(), min_score);
    }
}

/// Sorted audits go by ascending score, and audits with the same score by their names'
/// UTF-8 bytes in lexicographic order.
pub proof fn lemma_sorted_order(s: Seq<RepoAudit>, p: int, q: int)
    requires
        audits_sorted(s),
        0 <= p < q < s.len(),
    ensures
        s[p].score <= s[q].score,
        s[p].score == s[q].score ==> !lex_before(name_bytes(s[q]), name_bytes(s[p])),
{
    assert(!audit_before(s[q], s[p]));
    lemma_name_order_is_lexicographic(name_bytes(s[q]), name_bytes(s[p]));
}

/// The weighted template: Features 18, Quick Start 16, Architecture 14 and License 14
/// points (required); Tech Stack 10, Usage 8, Run Tests 8, Deploy 6, Centered Hero 3 and
/// Agent Header 3 points (recommended), in this order.
pub proof fn lemma_template_checks()
    ensures
        section_name(0) == "Features"@ && section_weight(0) == 18 && section_required(0),
        section_name(1) == "Quick Start"@ && section_weight(1) == 16 && section_required(1),
        section_name(2) == "Architecture"@ && section_weight(2) == 14 && section_required(2),
        section_name(3) == "License"@ && section_weight(3) == 14 && section_required(3),
        section_name(4) == "Tech Stack"@ && section_weight(4) == 10 && !section_required(4),
        section_name(5) == "Usage"@ && section_weight(5) == 8 && !section_required(5),
        section_name(6) == "Run Tests"@ && section_weight(6) == 8 && !section_required(6),
        section_name(7) == "Deploy"@ && section_weight(7) == 6 && !section_required(7),
        section_name(8) == "Centered Hero"@ && section_weight(8) == 3 && !section_required(8),
        section_name(9) == "Agent Header"@ && section_weight(9) == 3 && !section_required(9),
{
}

proof fn lemma_text_check(before: Seq<char>, pattern: Seq<char>, after: Seq<char>, i: int)
    requires
        !heading_check(i),
        section_patterns(i).len() > 0,
        section_patterns(i)[0] == pattern,
    ensures
        section_present(before + pattern + after, i),
{
    let pb = lowered_bytes(pattern);
    assert(pb.subrange(0, pb.len() as int) =~= pb);
    assert(crate::text::occurs_at(pb, pb, 0));
    lemma_lowered_concat(before, pattern);
    lemma_lowered_concat(before + pattern, after);
    lemma_contains_in_context(lowered_bytes(before), pb, lowered_bytes(after), pb);
    assert(pattern_found(before + pattern + after, i, section_patterns(i)[0]));
}

/// The centered hero block `<p align="center">` and the agent header image
/// `quickstart-for-agents.vercel.app/api/header.svg` count wherever they stand.
pub proof fn lemma_banner_checks(before: Seq<char>, after: Seq<char>)
    ensures
        section_present(before + "<p align=\"center\">"@ + after, 8),
        section_present(before + "quickstart-for-agents.vercel.app/api/header.svg"@ + after, 9),
{
    lemma_text_check(before, "<p align=\"center\">"@, after, 8);
    lemma_text_check(before, "quickstart-for-agents.vercel.app/api/header.svg"@, after, 9);
}

} // verus!
