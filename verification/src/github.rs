//! Repository metadata and the interpretation of `gh` command results.
use vstd::prelude::*;
use vstd::utf8::encode_utf8;
use crate::text::{chars_of, contains_bytes, find_bytes, push_decimal, decimal, string_from_chars, trim, trim_bounds};

verus! {

/// One repository of an organization, as `gh repo list` describes it.
#[derive(Clone, Debug, PartialEq, Eq)]
pub struct RepoMetadata {
    pub name: String,
    pub is_private: bool,
    pub description: String,
}

/// A repository's metadata as values.
pub struct RepoView {
    pub name: Seq<char>,
    pub is_private: bool,
    pub description: Seq<char>,
}

impl RepoMetadata {
    /// The metadata as values.
    pub open spec fn view_of(&self) -> RepoView {
        RepoView { name: self.name@, is_private: self.is_private, description: self.description@ }
    }

    /// A field-by-field copy.
    pub fn duplicate(&self) -> (r: RepoMetadata)
        ensures
            r == *self,
    {
        RepoMetadata {
            name: self.name.clone(),
            is_private: self.is_private,
            description: self.description.clone(),
        }
    }
}

/// The position of the first `c` in `s`, if any.
pub open spec fn char_index(s: Seq<char>, c: char) -> Option<int>
    decreases s.len(),
{
    if s.len() == 0 {
        None
    } else if s[0] == c {
        Some(0)
    } else {
        match char_index(s.drop_first(), c) {
            Some(k) => Some(k + 1),
            None => None,
        }
    }
}

/// When `s[..m]` holds no `c` and `s[m]` is `c` (or `m` is the end), the first `c` is at
/// `m` (or there is none).
proof fn lemma_char_index(s: Seq<char>, c: char, m: int)
    requires
        0 <= m <= s.len(),
        forall|k: int| 0 <= k < m ==> s[k] != c,
        m < s.len() ==> s[m] == c,
    ensures
        char_index(s, c) == (if m < s.len() {
            Some(m)
        } else {
            None::<int>
        }),
    decreases s.len(),
{
    if s.len() > 0 && m > 0 {
        lemma_char_index(s.drop_first(), c, m - 1);
    }
}

/// The position of the first `c` in `chars[from..to]`, counted from `from`.
fn find_char(chars: &Vec<char>, from: usize, to: usize, c: char) -> (r: Option<usize>)
    requires
        from <= to <= chars@.len(),
    ensures
        r matches Some(k) ==> from <= k < to && char_index(chars@.subrange(from as int, to as int), c) == Some(
            k - from,
        ),
        r is None ==> char_index(chars@.subrange(from as int, to as int), c) is None,
{
    let ghost s = chars@.subrange(from as int, to as int);
    let mut i = from;
    while i < to
        invariant
            from <= i <= to <= chars@.len(),
            s == chars@.subrange(from as int, to as int),
            forall|k: int| 0 <= k < i - from ==> s[k] != c,
        decreases to - i,
    {
        if chars[i] == c {
            proof {
                lemma_char_index(s, c, i - from);
            }
            return Some(i);
        }
        i = i + 1;
    }
    proof {
        lemma_char_index(s, c, s.len() as int);
    }
    None
}

/// The fields of a tab-separated line, split at the first two tabs as `splitn(3, '\t')`
/// does: the first field, and the second and third when there are that many.
pub open spec fn tab_fields(line: Seq<char>) -> (Seq<char>, Option<Seq<char>>, Option<Seq<char>>) {
    match char_index(line, '\t') {
        None => (line, None, None),
        Some(k) => {
            let rest = line.skip(k + 1);
            match char_index(rest, '\t') {
                None => (line.take(k), Some(rest), None),
                Some(k2) => (line.take(k), Some(rest.take(k2)), Some(rest.skip(k2 + 1))),
            }
        },
    }
}

/// The repository that a `name<TAB>private<TAB>description` line describes: none when the
/// trimmed name is empty; private when the trimmed second field is `true`; the description
/// is the trimmed third field (empty when there is none).
pub open spec fn parse_repo_fields(line: Seq<char>) -> Option<RepoView> {
    let (first, second, third) = tab_fields(line);
    let name = trim(first);
    if name.len() == 0 {
        None
    } else {
        Some(
            RepoView {
                name: name,
                is_private: match second {
                    Some(x) => trim(x) == "true"@,
                    None => false,
                },
                description: match third {
                    Some(t) => trim(t),
                    None => seq![],
                },
            },
        )
    }
}

/// The metadata view of an optional repository.
pub open spec fn repo_view_of(r: Option<RepoMetadata>) -> Option<RepoView> {
    match r {
        Some(m) => Some(m.view_of()),
        None => None,
    }
}

/// Whether `chars[from..to]` is exactly `true`.
fn is_true_word(chars: &Vec<char>, from: usize, to: usize) -> (r: bool)
    requires
        from <= to <= chars@.len(),
    ensures
        r == (chars@.subrange(from as int, to as int) == "true"@),
{
    proof {
        reveal_strlit("true");
    }
    assert("true"@.len() == 4);
    if to - from != 4 {
        return false;
    }
    let r = chars[from] == 't' && chars[from + 1] == 'r' && chars[from + 2] == 'u' && chars[from + 3] == 'e';
    if r {
        assert(chars@.subrange(from as int, to as int) =~= "true"@);
    } else {
        assert(chars@.subrange(from as int, to as int) != "true"@) by {
            if chars@.subrange(from as int, to as int) == "true"@ {
                assert(chars@.subrange(from as int, to as int)[0] == 't');
                assert(chars@.subrange(from as int, to as int)[1] == 'r');
                assert(chars@.subrange(from as int, to as int)[2] == 'u');
                assert(chars@.subrange(from as int, to as int)[3] == 'e');
            }
        }
    }
    r
}

/// Parses the line `chars[from..to]`.
fn parse_repo_chars(chars: &Vec<char>, from: usize, to: usize) -> (r: Option<RepoMetadata>)
    requires
        from <= to <= chars@.len(),
    ensures
        repo_view_of(r) == parse_repo_fields(chars@.subrange(from as int, to as int)),
{
    let ghost line = chars@.subrange(from as int, to as int);
    let ghost fields = tab_fields(line);
    let tab = find_char(chars, from, to, '\t');
    let first_end = match tab {
        None => to,
        Some(k) => k,
    };
    proof {
        match char_index(line, '\t') {
            None => {
                assert(line =~= chars@.subrange(from as int, first_end as int));
            },
            Some(k) => {
                assert(line.take(k) =~= chars@.subrange(from as int, first_end as int));
            },
        }
    }
    assert(fields.0 == chars@.subrange(from as int, first_end as int));
    let (name_start, name_end) = trim_bounds(chars, from, first_end);
    if name_start == name_end {
        return None;
    }
    let name = string_from_chars(chars, name_start, name_end);
    let mut is_private = false;
    let mut description = String::new();
    match tab {
        None => {
            assert(fields.1 is None && fields.2 is None);
        },
        Some(k) => {
            let rest_start = k + 1;
            let ghost rest = line.skip(k + 1 - from);
            assert(rest =~= chars@.subrange(rest_start as int, to as int));
            let tab2 = find_char(chars, rest_start, to, '\t');
            let second_end = match tab2 {
                None => to,
                Some(k2) => k2,
            };
            proof {
                match char_index(rest, '\t') {
                    None => {
                        assert(rest =~= chars@.subrange(rest_start as int, second_end as int));
                    },
                    Some(k2) => {
                        assert(rest.take(k2) =~= chars@.subrange(rest_start as int, second_end as int));
                        assert(rest.skip(k2 + 1) =~= chars@.subrange(second_end + 1, to as int));
                    },
                }
            }
            assert(fields.1 == Some(chars@.subrange(rest_start as int, second_end as int)));
            let (a, b) = trim_bounds(chars, rest_start, second_end);
            is_private = is_true_word(chars, a, b);
            match tab2 {
                None => {
                    assert(fields.2 is None);
                },
                Some(k2) => {
                    assert(fields.2 == Some(chars@.subrange(k2 + 1, to as int)));
                    let (c, d) = trim_bounds(chars, k2 + 1, to);
                    description = string_from_chars(chars, c, d);
                },
            }
        },
    }
    assert(description@ == (match fields.2 {
        Some(t) => trim(t),
        None => seq![],
    }));
    Some(RepoMetadata { name, is_private, description })
}

/// Parses one `name<TAB>private<TAB>description` line of `gh repo list` output.
pub fn parse_repo_line(line: &str) -> (r: Option<RepoMetadata>)
    ensures
        repo_view_of(r) == parse_repo_fields(line@),
{
    let chars = chars_of(line);
    assert(chars@.subrange(0, chars@.len() as int) =~= line@);
    parse_repo_chars(&chars, 0, chars.len())
}

/// A line written as `name<TAB>true|false<TAB>description` reads back as that repository,
/// when the name and the description hold no tab and have no surrounding whitespace (and
/// the name is not empty).
pub proof fn lemma_repo_line_round_trip(name: Seq<char>, private: bool, description: Seq<char>)
    requires
        name.len() > 0,
        !name.contains('\t'),
        !description.contains('\t'),
        trim(name) == name,
        trim(description) == description,
    ensures
        parse_repo_fields(name + seq!['\t'] + (if private {
            "true"@
        } else {
            "false"@
        }) + seq!['\t'] + description) == Some(RepoView { name: name, is_private: private, description: description }),
{
    reveal_strlit("true");
    reveal_strlit("false");
    let flag = if private {
        "true"@
    } else {
        "false"@
    };
    let line = name + seq!['\t'] + flag + seq!['\t'] + description;
    assert forall|k: int| 0 <= k < name.len() implies line[k] != '\t' by {
        assert(line[k] == name[k]);
        if name[k] == '\t' {
            assert(name.contains('\t'));
        }
    }
    assert(line[name.len() as int] == '\t');
    lemma_char_index(line, '\t', name.len() as int);
    let rest = line.skip(name.len() as int + 1);
    assert(rest =~= flag + seq!['\t'] + description);
    assert forall|k: int| 0 <= k < flag.len() implies rest[k] != '\t' by {
        assert(rest[k] == flag[k]);
    }
    assert(rest[flag.len() as int] == '\t');
    lemma_char_index(rest, '\t', flag.len() as int);
    assert(line.take(name.len() as int) =~= name);
    assert(rest.take(flag.len() as int) =~= flag);
    assert(rest.skip(flag.len() as int + 1) =~= description);
    assert(crate::text::trim_start(flag) == flag);
    assert(crate::text::trim_end(flag) == flag);
    assert("false"@ != "true"@);
}

// ---------------------------------------------------------------------------
// Lines of command output
// ---------------------------------------------------------------------------

/// `t` without one trailing carriage return.
pub open spec fn strip_cr(t: Seq<char>) -> Seq<char> {
    if t.len() > 0 && t.last() == '\r' {
        t.drop_last()
    } else {
        t
    }
}

/// The lines of `s` given the characters `current` of the unfinished line before it.
/// A line ends at `\n` (a `\r` just before it is dropped); a final unterminated line counts
/// when it is not empty.
pub open spec fn lines_after(s: Seq<char>, current: Seq<char>) -> Seq<Seq<char>>
    decreases s.len(),
{
    if s.len() == 0 {
        if current.len() == 0 {
            seq![]
        } else {
            seq![current]
        }
    } else if s[0] == '\n' {
        seq![strip_cr(current)] + lines_after(s.drop_first(), seq![])
    } else {
        lines_after(s.drop_first(), current.push(s[0]))
    }
}

/// The lines of `s`, as `str::lines` gives them.
pub open spec fn text_lines(s: Seq<char>) -> Seq<Seq<char>> {
    lines_after(s, seq![])
}

/// The repositories described by the lines that parse, in order.
pub open spec fn parsed_repos(lines: Seq<Seq<char>>) -> Seq<RepoView>
    decreases lines.len(),
{
    if lines.len() == 0 {
        seq![]
    } else {
        let before = parsed_repos(lines.drop_last());
        match parse_repo_fields(lines.last()) {
            Some(r) => before.push(r),
            None => before,
        }
    }
}

/// The metadata views of a list of repositories.
pub open spec fn repo_views(repos: Seq<RepoMetadata>) -> Seq<RepoView> {
    repos.map_values(|r: RepoMetadata| r.view_of())
}

proof fn lemma_parsed_repos_push(lines: Seq<Seq<char>>, line: Seq<char>)
    ensures
        parsed_repos(lines.push(line)) == (match parse_repo_fields(line) {
            Some(r) => parsed_repos(lines).push(r),
            None => parsed_repos(lines),
        }),
{
    assert(lines.push(line).drop_last() =~= lines);
}

/// The repositories described by the lines of `output` that parse.
pub fn parse_repo_listing(output: &str) -> (repos: Vec<RepoMetadata>)
    ensures
        repo_views(repos@) == parsed_repos(text_lines(output@)),
{
    let chars = chars_of(output);
    let n = chars.len();
    let ghost s = chars@;
    let ghost mut done: Seq<Seq<char>> = seq![];
    let mut repos: Vec<RepoMetadata> = Vec::new();
    let mut start: usize = 0;
    let mut i: usize = 0;
    assert(s.skip(0) =~= s);
    assert(s.subrange(0, 0) =~= Seq::<char>::empty());
    while i < n
        invariant
            s == chars@,
            s == output@,
            n == s.len(),
            start <= i <= n,
            text_lines(s) == done + lines_after(s.skip(i as int), s.subrange(start as int, i as int)),
            repo_views(repos@) == parsed_repos(done),
        decreases n - i,
    {
        let ghost rest = s.skip(i as int);
        let ghost current = s.subrange(start as int, i as int);
        assert(rest.drop_first() =~= s.skip(i + 1));
        if chars[i] == '\n' {
            let end = if i > start && chars[i - 1] == '\r' { i - 1 } else { i };
            assert(s.subrange(start as int, end as int) == strip_cr(current)) by {
                if i > start && chars@[i - 1] == '\r' {
                    assert(current.drop_last() =~= s.subrange(start as int, end as int));
                }
            }
            let parsed = parse_repo_chars(&chars, start, end);
            proof {
                lemma_parsed_repos_push(done, strip_cr(current));
                assert(done.push(strip_cr(current)) + lines_after(s.skip(i + 1), seq![]) =~= done + (
                seq![strip_cr(current)] + lines_after(s.skip(i + 1), seq![])));
                done = done.push(strip_cr(current));
            }
            match parsed {
                Some(r) => {
                    repos.push(r);
                    assert(repo_views(repos@) =~= parsed_repos(done));
                },
                None => {},
            }
            start = i + 1;
            assert(s.subrange(start as int, i + 1) =~= Seq::<char>::empty());
        } else {
            assert(current.push(s[i as int]) =~= s.subrange(start as int, i + 1));
        }
        i = i + 1;
    }
    let ghost current = s.subrange(start as int, n as int);
    assert(s.skip(n as int) =~= Seq::<char>::empty());
    if start < n {
        let parsed = parse_repo_chars(&chars, start, n);
        proof {
            lemma_parsed_repos_push(done, current);
            assert(text_lines(s) =~= done.push(current));
        }
        match parsed {
            Some(r) => {
                repos.push(r);
                assert(repo_views(repos@) =~= parsed_repos(done.push(current)));
            },
            None => {},
        }
    } else {
        assert(text_lines(s) =~= done);
    }
    repos
}

// ---------------------------------------------------------------------------
// Interpreting `gh` results
// ---------------------------------------------------------------------------

/// What a finished `gh` command reported.
#[derive(Clone, Debug, PartialEq, Eq)]
pub struct CommandResult {
    pub success: bool,
    pub stdout: String,
    pub stderr: String,
}

/// The most informative error text of a failed command: its trimmed standard error, else its
/// trimmed standard output, else a generic message.
pub open spec fn best_error_text(stdout: Seq<char>, stderr: Seq<char>) -> Seq<char> {
    if trim(stderr).len() > 0 {
        trim(stderr)
    } else if trim(stdout).len() > 0 {
        trim(stdout)
    } else {
        "unknown gh error"@
    }
}

/// `s` trimmed.
fn trimmed(s: &str) -> (t: String)
    ensures
        t@ == trim(s@),
{
    let chars = chars_of(s);
    let (a, b) = trim_bounds(&chars, 0, chars.len());
    assert(chars@.subrange(0, chars@.len() as int) =~= s@);
    string_from_chars(&chars, a, b)
}

/// The most informative error text of a failed command.
pub fn best_error(result: &CommandResult) -> (e: String)
    ensures
        e@ == best_error_text(result.stdout@, result.stderr@),
{
    let stderr = trimmed(result.stderr.as_str());
    if stderr.as_str().unicode_len() > 0 {
        return stderr;
    }
    let stdout = trimmed(result.stdout.as_str());
    if stdout.as_str().unicode_len() > 0 {
        return stdout;
    }
    "unknown gh error".to_owned()
}

/// `text` contains `pattern` (as UTF-8 bytes, the way `str::contains` searches).
pub open spec fn text_contains(text: Seq<char>, pattern: Seq<char>) -> bool {
    contains_bytes(encode_utf8(text), encode_utf8(pattern))
}

/// Whether `text` contains `pattern`.
fn str_contains(text: &str, pattern: &str) -> (r: bool)
    ensures
        r == text_contains(text@, pattern@),
{
    find_bytes(text.as_bytes(), pattern.as_bytes())
}

/// The outcome of listing an organization's repositories: the command's error when it
/// failed; otherwise the repositories of its output lines, or an error when there are none.
pub open spec fn listing_outcome(org: Seq<char>, success: bool, stdout: Seq<char>, stderr: Seq<char>) -> Result<
    Seq<RepoView>,
    Seq<char>,
> {
    if !success {
        Err("Failed to list repositories for '"@ + org + "': "@ + best_error_text(stdout, stderr))
    } else {
        let repos = parsed_repos(text_lines(stdout));
        if repos.len() == 0 {
            Err("No repositories returned for organization '"@ + org + "'. Check access with: gh auth status"@)
        } else {
            Ok(repos)
        }
    }
}

/// The repositories of `org`, from the result of the listing command (`repo_list_args`).
pub fn list_repositories(org: &str, listing: &CommandResult) -> (r: Result<Vec<RepoMetadata>, String>)
    ensures
        match listing_outcome(org@, listing.success, listing.stdout@, listing.stderr@) {
            Ok(repos) => (r matches Ok(v) && repo_views(v@) == repos),
            Err(message) => (r matches Err(m) && m@ == message),
        },
{
    if !listing.success {
        let mut message = "Failed to list repositories for '".to_owned();
        message.append(org);
        message.append("': ");
        let e = best_error(listing);
        message.append(e.as_str());
        return Err(message);
    }
    let repos = parse_repo_listing(listing.stdout.as_str());
    if repos.len() == 0 {
        let mut message = "No repositories returned for organization '".to_owned();
        message.append(org);
        message.append("'. Check access with: gh auth status");
        return Err(message);
    }
    Ok(repos)
}

/// The outcome of fetching a README: its text when the command succeeded; no README when
/// the error says `404` or `Not Found`; otherwise an error naming the repository.
pub open spec fn readme_outcome(
    org: Seq<char>,
    repo_name: Seq<char>,
    success: bool,
    stdout: Seq<char>,
    stderr: Seq<char>,
) -> Result<Option<Seq<char>>, Seq<char>> {
    if success {
        Ok(Some(stdout))
    } else {
        let e = best_error_text(stdout, stderr);
        if text_contains(e, "404"@) || text_contains(e, "Not Found"@) {
            Ok(None)
        } else {
            Err("Unable to fetch README for '"@ + org + "/"@ + repo_name + "': "@ + e)
        }
    }
}

/// The README of `org/repo_name`, from the result of the fetch command (`readme_args`).
pub fn fetch_readme(org: &str, repo_name: &str, response: &CommandResult) -> (r: Result<Option<String>, String>)
    ensures
        match readme_outcome(org@, repo_name@, response.success, response.stdout@, response.stderr@) {
            Ok(Some(text)) => (r matches Ok(Some(t)) && t@ == text),
            Ok(None) => r matches Ok(None),
            Err(message) => (r matches Err(m) && m@ == message),
        },
{
    if response.success {
        return Ok(Some(response.stdout.clone()));
    }
    let error_text = best_error(response);
    if str_contains(error_text.as_str(), "404") || str_contains(error_text.as_str(), "Not Found") {
        return Ok(None);
    }
    let mut message = "Unable to fetch README for '".to_owned();
    message.append(org);
    message.append("/");
    message.append(repo_name);
    message.append("': ");
    message.append(error_text.as_str());
    Err(message)
}

/// The `jq` filter that prints one `name<TAB>private<TAB>description` line per repository.
pub open spec fn listing_filter() -> Seq<char> {
    ".[] | [.name, (.isPrivate|tostring), (.description // \"\")] | @tsv"@
}

/// The `gh` arguments that list up to `limit` repositories of `org`.
pub fn repo_list_args(org: &str, limit: usize) -> (args: Vec<String>)
    ensures
        crate::audit::string_texts(args@) == seq![
            "repo"@,
            "list"@,
            org@,
            "--limit"@,
            decimal(limit as nat),
            "--json"@,
            "name,isPrivate,description"@,
            "--jq"@,
            listing_filter(),
        ],
{
    let mut limit_text = String::new();
    push_decimal(&mut limit_text, limit as u64);
    assert(limit_text@ =~= decimal(limit as nat));
    let args: Vec<String> = vec![
        "repo".to_owned(),
        "list".to_owned(),
        org.to_owned(),
        "--limit".to_owned(),
        limit_text,
        "--json".to_owned(),
        "name,isPrivate,description".to_owned(),
        "--jq".to_owned(),
        ".[] | [.name, (.isPrivate|tostring), (.description // \"\")] | @tsv".to_owned(),
    ];
    assert(crate::audit::string_texts(args@) =~= seq![
        "repo"@,
        "list"@,
        org@,
        "--limit"@,
        decimal(limit as nat),
        "--json"@,
        "name,isPrivate,description"@,
        "--jq"@,
        listing_filter(),
    ]);
    args
}

/// The `gh` arguments that fetch the raw README of `org/repo_name`.
pub fn readme_args(org: &str, repo_name: &str) -> (args: Vec<String>)
    ensures
        crate::audit::string_texts(args@) == seq![
            "api"@,
            "-H"@,
            "Accept: application/vnd.github.raw+json"@,
            "repos/"@ + org@ + "/"@ + repo_name@ + "/readme"@,
        ],
{
    let mut endpoint = "repos/".to_owned();
    endpoint.append(org);
    endpoint.append("/");
    endpoint.append(repo_name);
    endpoint.append("/readme");
    let args: Vec<String> = vec![
        "api".to_owned(),
        "-H".to_owned(),
        "Accept: application/vnd.github.raw+json".to_owned(),
        endpoint,
    ];
    assert(crate::audit::string_texts(args@) =~= seq![
        "api"@,
        "-H"@,
        "Accept: application/vnd.github.raw+json"@,
        "repos/"@ + org@ + "/"@ + repo_name@ + "/readme"@,
    ]);
    args
}

} // verus!
