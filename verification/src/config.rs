//! Command-line options: their defaults, and parsing them from the arguments.
use vstd::prelude::*;
use crate::audit::string_texts;
use crate::text::{is_blank, parse_unsigned, parse_unsigned_str, str_eq, trim, trim_end, trim_start};

verus! {

/// How a report is rendered.
#[derive(Clone, Copy, Debug, PartialEq, Eq, Structural)]
pub enum OutputFormat {
    Table,
    Markdown,
    Json,
}

impl OutputFormat {
    /// The name of a format on the command line.
    pub open spec fn label(self) -> Seq<char> {
        match self {
            OutputFormat::Table => "table"@,
            OutputFormat::Markdown => "markdown"@,
            OutputFormat::Json => "json"@,
        }
    }

    /// The format that a command-line name names, if any.
    pub open spec fn from_label(value: Seq<char>) -> Option<OutputFormat> {
        if value == "table"@ {
            Some(OutputFormat::Table)
        } else if value == "markdown"@ {
            Some(OutputFormat::Markdown)
        } else if value == "json"@ {
            Some(OutputFormat::Json)
        } else {
            None
        }
    }

    /// Parses a format name; any other text is refused with an explanation.
    pub fn parse(value: &str) -> (r: Result<Self, String>)
        ensures
            match OutputFormat::from_label(value@) {
                Some(f) => r == Ok::<OutputFormat, String>(f),
                None => (r matches Err(e) && e@ == unsupported_format_message(value@)),
            },
    {
        if str_eq(value, "table") {
            Ok(OutputFormat::Table)
        } else if str_eq(value, "markdown") {
            Ok(OutputFormat::Markdown)
        } else if str_eq(value, "json") {
            Ok(OutputFormat::Json)
        } else {
            let mut message = "Unsupported format '".to_owned();
            message.append(value);
            message.append("'. Expected one of: table, markdown, json.");
            Err(message)
        }
    }

    /// The name of a format on the command line.
    pub fn as_str(self) -> (s: &'static str)
        ensures
            s@ == self.label(),
    {
        match self {
            OutputFormat::Table => "table",
            OutputFormat::Markdown => "markdown",
            OutputFormat::Json => "json",
        }
    }
}

/// The error for an unknown format name.
pub open spec fn unsupported_format_message(value: Seq<char>) -> Seq<char> {
    "Unsupported format '"@ + value + "'. Expected one of: table, markdown, json."@
}

/// The options of one run.
#[derive(Clone, Debug, PartialEq, Eq)]
pub struct Config {
    pub org: String,
    pub limit: usize,
    pub min_score: u8,
    pub format: OutputFormat,
    pub include_private: bool,
    pub strict: bool,
}

/// The options as values.
pub struct ConfigState {
    pub org: Seq<char>,
    pub limit: nat,
    pub min_score: nat,
    pub format: OutputFormat,
    pub include_private: bool,
    pub strict: bool,
}

impl Config {
    /// The options that this configuration holds.
    pub open spec fn state(&self) -> ConfigState {
        ConfigState {
            org: self.org@,
            limit: self.limit as nat,
            min_score: self.min_score as nat,
            format: self.format,
            include_private: self.include_private,
            strict: self.strict,
        }
    }
}

/// The default options: organization `Open330`, at most 100 repositories, target score 70,
/// table output, public repositories only, not strict.
pub open spec fn default_state() -> ConfigState {
    ConfigState {
        org: "Open330"@,
        limit: 100,
        min_score: 70,
        format: OutputFormat::Table,
        include_private: false,
        strict: false,
    }
}

impl Default for Config {
    fn default() -> (config: Self)
        ensures
            config.state() == default_state(),
    {
        Config {
            org: "Open330".to_owned(),
            limit: 100,
            min_score: 70,
            format: OutputFormat::Table,
            include_private: false,
            strict: false,
        }
    }
}

/// The usage text.
pub open spec fn usage_text() -> Seq<char> {
    USAGE@
}

/// The error for an option given without its value.
pub open spec fn missing_value_message(flag: Seq<char>) -> Seq<char> {
    "Missing value for "@ + flag + "."@
}

/// The error for a `--limit` value that is not a number.
pub open spec fn invalid_limit_message(raw: Seq<char>) -> Seq<char> {
    "Invalid --limit value '"@ + raw + "'. Expected a positive integer."@
}

/// The error for a `--min-score` value that is not a number from 0 to 255.
pub open spec fn invalid_min_score_message(raw: Seq<char>) -> Seq<char> {
    "Invalid --min-score value '"@ + raw + "'. Expected 0-100."@
}

/// The error for an unknown option.
pub open spec fn unknown_option_message(arg: Seq<char>) -> Seq<char> {
    "Unknown option '"@ + arg + "'.\n\n"@ + usage_text()
}

/// The result of parsing `args` from position `index` on, with `state` the options so far.
/// Each option sets its field (a later occurrence wins); `--org`, `--limit`, `--min-score`
/// and `--format` take the next argument as their value; the first bad argument ends the
/// parse with its error.
pub open spec fn parse_from(args: Seq<Seq<char>>, index: nat, state: ConfigState) -> Result<ConfigState, Seq<char>>
    decreases args.len() - index,
{
    if index >= args.len() {
        Ok(state)
    } else {
        let arg = args[index as int];
        let has_value = index + 1 < args.len();
        let value = args[index + 1 as int];
        if arg == "--org"@ {
            if !has_value {
                Err(missing_value_message("--org"@))
            } else if trim(value).len() == 0 {
                Err("--org cannot be empty."@)
            } else {
                parse_from(args, index + 2, ConfigState { org: value, ..state })
            }
        } else if arg == "--limit"@ {
            if !has_value {
                Err(missing_value_message("--limit"@))
            } else {
                match parse_unsigned(value, usize::MAX as nat) {
                    None => Err(invalid_limit_message(value)),
                    Some(n) => if n == 0 {
                        Err("--limit must be greater than 0."@)
                    } else {
                        parse_from(args, index + 2, ConfigState { limit: n, ..state })
                    },
                }
            }
        } else if arg == "--min-score"@ {
            if !has_value {
                Err(missing_value_message("--min-score"@))
            } else {
                match parse_unsigned(value, 255) {
                    None => Err(invalid_min_score_message(value)),
                    Some(n) => if n > 100 {
                        Err("--min-score must be in range 0-100."@)
                    } else {
                        parse_from(args, index + 2, ConfigState { min_score: n, ..state })
                    },
                }
            }
        } else if arg == "--format"@ {
            if !has_value {
                Err(missing_value_message("--format"@))
            } else {
                match OutputFormat::from_label(value) {
                    None => Err(unsupported_format_message(value)),
                    Some(f) => parse_from(args, index + 2, ConfigState { format: f, ..state }),
                }
            }
        } else if arg == "--include-private"@ {
            parse_from(args, index + 1, ConfigState { include_private: true, ..state })
        } else if arg == "--strict"@ {
            parse_from(args, index + 1, ConfigState { strict: true, ..state })
        } else {
            Err(unknown_option_message(arg))
        }
    }
}

/// The result of parsing a whole argument list, starting from the defaults.
pub open spec fn parse_args(args: Seq<Seq<char>>) -> Result<ConfigState, Seq<char>> {
    parse_from(args, 0, default_state())
}

/// The text of the usage message.
pub const USAGE: &'static str = "docs-sentry - Audit GitHub repository README quality\n\nUSAGE:\n  docs-sentry [OPTIONS]\n\nOPTIONS:\n  --org <ORG>              GitHub organization to scan (default: Open330)\n  --limit <N>              Max repositories to fetch (default: 100)\n  --min-score <0-100>      Minimum acceptable score (default: 70)\n  --format <FORMAT>        Output format: table, markdown, json (default: table)\n  --include-private         Include private repositories in the report\n  --strict                  Exit with code 2 when repos are below --min-score\n  -h, --help               Print help\n\nEXAMPLES:\n  docs-sentry --org Open330 --format markdown\n  docs-sentry --org Open330 --limit 50 --min-score 80 --strict\n  docs-sentry --org rust-lang --format json\n";

/// The argument after position `index`, or the error that names the option `flag` as
/// lacking its value.
pub fn take_value(args: &[String], index: usize, flag: &str) -> (r: Result<String, String>)
    requires
        index < usize::MAX,
    ensures
        index + 1 < args@.len() ==> r == Ok::<String, String>(args@[index + 1]),
        index + 1 >= args@.len() ==> (r matches Err(e) && e@ == missing_value_message(flag@)),
{
    if index + 1 < args.len() {
        Ok(args[index + 1].clone())
    } else {
        let mut message = "Missing value for ".to_owned();
        message.append(flag);
        message.append(".");
        Err(message)
    }
}

impl Config {
    /// Parses the command-line arguments (without the program name) into options, starting
    /// from the defaults; see `parse_from` for what each argument does.
    pub fn parse(args: Vec<String>) -> (r: Result<Self, String>)
        ensures
            match parse_args(string_texts(args@)) {
                Ok(state) => (r matches Ok(c) && c.state() == state),
                Err(message) => (r matches Err(m) && m@ == message),
            },
    {
        let ghost texts = string_texts(args@);
        let mut config = Config::default();
        let mut index: usize = 0;
        while index < args.len()
            invariant
                texts == string_texts(args@),
                index <= args@.len(),
                parse_args(texts) == parse_from(texts, index as nat, config.state()),
            decreases args@.len() - index,
        {
            let arg = args[index].as_str();
            assert(arg@ == texts[index as int]);
            if str_eq(arg, "--org") {
                let value = match take_value(args.as_slice(), index, "--org") {
                    Ok(v) => v,
                    Err(e) => return Err(e),
                };
                assert(value@ == texts[index + 1]);
                if is_blank(value.as_str()) {
                    return Err("--org cannot be empty.".to_owned());
                }
                config.org = value;
                index = index + 2;
            } else if str_eq(arg, "--limit") {
                let raw = match take_value(args.as_slice(), index, "--limit") {
                    Ok(v) => v,
                    Err(e) => return Err(e),
                };
                assert(raw@ == texts[index + 1]);
                match parse_unsigned_str(raw.as_str(), usize::MAX) {
                    None => {
                        let mut message = "Invalid --limit value '".to_owned();
                        message.append(raw.as_str());
                        message.append("'. Expected a positive integer.");
                        return Err(message);
                    },
                    Some(n) => {
                        if n == 0 {
                            return Err("--limit must be greater than 0.".to_owned());
                        }
                        config.limit = n;
                    },
                }
                index = index + 2;
            } else if str_eq(arg, "--min-score") {
                let raw = match take_value(args.as_slice(), index, "--min-score") {
                    Ok(v) => v,
                    Err(e) => return Err(e),
                };
                assert(raw@ == texts[index + 1]);
                match parse_unsigned_str(raw.as_str(), 255) {
                    None => {
                        let mut message = "Invalid --min-score value '".to_owned();
                        message.append(raw.as_str());
                        message.append("'. Expected 0-100.");
                        return Err(message);
                    },
                    Some(n) => {
                        if n > 100 {
                            return Err("--min-score must be in range 0-100.".to_owned());
                        }
                        config.min_score = n as u8;
                    },
                }
                index = index + 2;
            } else if str_eq(arg, "--format") {
                let raw = match take_value(args.as_slice(), index, "--format") {
                    Ok(v) => v,
                    Err(e) => return Err(e),
                };
                assert(raw@ == texts[index + 1]);
                config.format = match OutputFormat::parse(raw.as_str()) {
                    Ok(f) => f,
                    Err(e) => return Err(e),
                };
                index = index + 2;
            } else if str_eq(arg, "--include-private") {
                config.include_private = true;
                index = index + 1;
            } else if str_eq(arg, "--strict") {
                config.strict = true;
                index = index + 1;
            } else {
                let mut message = "Unknown option '".to_owned();
                message.append(arg);
                message.append("'.\n\n");
                message.append(Config::usage());
                return Err(message);
            }
        }
        Ok(config)
    }

    /// The usage text.
    pub fn usage() -> (s: &'static str)
        ensures
            s@ == usage_text(),
    {
        USAGE
    }
}


/// Options that a run can accept: a non-blank organization, a positive limit and a target
/// score from 0 to 100.
pub open spec fn valid_state(state: ConfigState) -> bool {
    &&& trim(state.org).len() > 0
    &&& state.limit >= 1
    &&& state.min_score <= 100
}

/// Without arguments, the options are the defaults.
pub proof fn lemma_no_arguments_give_defaults()
    ensures
        parse_args(seq![]) == Ok::<ConfigState, Seq<char>>(default_state()),
{
}

/// A format's name parses back to the format.
pub proof fn lemma_format_name_round_trip(format: OutputFormat)
    ensures
        OutputFormat::from_label(format.label()) == Some(format),
{
    reveal_strlit("table");
    reveal_strlit("markdown");
    reveal_strlit("json");
    assert("table"@.len() == 5 && "markdown"@.len() == 8 && "json"@.len() == 4);
    assert("markdown"@ != "table"@);
    assert("json"@ != "table"@ && "json"@ != "markdown"@);
}

/// The default options are valid.
pub proof fn lemma_defaults_valid()
    ensures
        valid_state(default_state()),
{
    reveal_strlit("Open330");
    let s = "Open330"@;
    assert(trim_start(s) == s);
    assert(trim_end(s) == s);
}

proof fn lemma_parse_from_valid(args: Seq<Seq<char>>, index: nat, state: ConfigState)
    requires
        valid_state(state),
    ensures
        parse_from(args, index, state) matches Ok(result) ==> valid_state(result),
    decreases args.len() - index,
{
    if index + 1 < args.len() {
        let arg = args[index as int];
        let value = args[index + 1 as int];
        if arg == "--org"@ {
            if trim(value).len() > 0 {
                lemma_parse_from_valid(args, index + 2, ConfigState { org: value, ..state });
            }
        } else if arg == "--limit"@ {
            if let Some(n) = parse_unsigned(value, usize::MAX as nat) {
                if n > 0 {
                    lemma_parse_from_valid(args, index + 2, ConfigState { limit: n, ..state });
                }
            }
        } else if arg == "--min-score"@ {
            if let Some(n) = parse_unsigned(value, 255) {
                if n <= 100 {
                    lemma_parse_from_valid(args, index + 2, ConfigState { min_score: n, ..state });
                }
            }
        } else if arg == "--format"@ {
            if let Some(f) = OutputFormat::from_label(value) {
                lemma_parse_from_valid(args, index + 2, ConfigState { format: f, ..state });
            }
        } else if arg == "--include-private"@ {
            lemma_parse_from_valid(args, index + 1, ConfigState { include_private: true, ..state });
        } else if arg == "--strict"@ {
            lemma_parse_from_valid(args, index + 1, ConfigState { strict: true, ..state });
        }
    } else if index < args.len() {
        let arg = args[index as int];
        if arg == "--include-private"@ {
            lemma_parse_from_valid(args, index + 1, ConfigState { include_private: true, ..state });
        } else if arg == "--strict"@ {
            lemma_parse_from_valid(args, index + 1, ConfigState { strict: true, ..state });
        }
    }
}

/// Every accepted argument list gives valid options.
pub proof fn lemma_parsed_options_valid(args: Seq<Seq<char>>)
    ensures
        parse_args(args) matches Ok(state) ==> valid_state(state),
{
    lemma_defaults_valid();
    lemma_parse_from_valid(args, 0, default_state());
}

/// The argument `flag` occurs in `args` at position `index` or later.
pub open spec fn flag_given(args: Seq<Seq<char>>, index: nat, flag: Seq<char>) -> bool {
    exists|k: int| index <= k < args.len() && #[trigger] args[k] == flag
}

proof fn lemma_flag_given_earlier(args: Seq<Seq<char>>, index: nat, later: nat, flag: Seq<char>)
    requires
        index <= later,
        flag_given(args, later, flag),
    ensures
        flag_given(args, index, flag),
{
    let k = choose|k: int| later <= k < args.len() && #[trigger] args[k] == flag;
    assert(index <= k < args.len() && args[k] == flag);
}

proof fn lemma_fields_from_flags(args: Seq<Seq<char>>, index: nat, state: ConfigState)
    ensures
        parse_from(args, index, state) matches Ok(r) ==> {
            &&& r.org != state.org ==> flag_given(args, index, "--org"@)
            &&& r.limit != state.limit ==> flag_given(args, index, "--limit"@)
            &&& r.min_score != state.min_score ==> flag_given(args, index, "--min-score"@)
            &&& r.format != state.format ==> flag_given(args, index, "--format"@)
            &&& r.include_private != state.include_private ==> flag_given(args, index, "--include-private"@)
            &&& r.strict != state.strict ==> flag_given(args, index, "--strict"@)
        },
    decreases args.len() - index,
{
    if index < args.len() {
        let arg = args[index as int];
        assert(args[index as int] == arg);
        if index + 1 < args.len() {
            let value = args[index + 1 as int];
            let next = if arg == "--org"@ {
                ConfigState { org: value, ..state }
            } else if arg == "--limit"@ {
                ConfigState { limit: parse_unsigned(value, usize::MAX as nat).unwrap(), ..state }
            } else if arg == "--min-score"@ {
                ConfigState { min_score: parse_unsigned(value, 255).unwrap(), ..state }
            } else {
                ConfigState { format: OutputFormat::from_label(value).unwrap(), ..state }
            };
            lemma_fields_from_flags(args, index + 2, next);
        }
        let flagged = if arg == "--include-private"@ {
            ConfigState { include_private: true, ..state }
        } else {
            ConfigState { strict: true, ..state }
        };
        lemma_fields_from_flags(args, index + 1, flagged);
        if parse_from(args, index, state) is Ok {
            let r = parse_from(args, index, state)->Ok_0;
            let flags = seq!["--org"@, "--limit"@, "--min-score"@, "--format"@, "--include-private"@, "--strict"@];
            assert forall|f: Seq<char>| flags.contains(f) && flag_given(args, index + 1, f) implies flag_given(args, index, f) by {
                lemma_flag_given_earlier(args, index, index + 1, f);
            }
            assert forall|f: Seq<char>| flags.contains(f) && flag_given(args, index + 2, f) implies flag_given(args, index, f) by {
                lemma_flag_given_earlier(args, index, index + 2, f);
            }
            assert(flags[0] == "--org"@ && flags[1] == "--limit"@ && flags[2] == "--min-score"@);
            assert(flags[3] == "--format"@ && flags[4] == "--include-private"@ && flags[5] == "--strict"@);
        }
    }
}

/// Each option keeps its default unless its own flag is given: the organization, the
/// limit, the target score, the format, private repositories and strict mode change only
/// when `--org`, `--limit`, `--min-score`, `--format`, `--include-private` or `--strict`
/// (respectively) is among the arguments.
pub proof fn lemma_options_come_from_their_flags(args: Seq<Seq<char>>)
    ensures
        parse_args(args) matches Ok(r) ==> {
            &&& r.org != "Open330"@ ==> args.contains("--org"@)
            &&& r.limit != 100 ==> args.contains("--limit"@)
            &&& r.min_score != 70 ==> args.contains("--min-score"@)
            &&& r.format != OutputFormat::Table ==> args.contains("--format"@)
            &&& r.include_private ==> args.contains("--include-private"@)
            &&& r.strict ==> args.contains("--strict"@)
        },
{
    lemma_fields_from_flags(args, 0, default_state());
    assert forall|f: Seq<char>| flag_given(args, 0, f) implies args.contains(f) by {
        let k = choose|k: int| 0 <= k < args.len() && #[trigger] args[k] == f;
        assert(args[k] == f);
    }
}

/// `result` with private repositories included (errors are kept).
pub open spec fn including_private(result: Result<ConfigState, Seq<char>>) -> Result<ConfigState, Seq<char>> {
    match result {
        Ok(r) => Ok(ConfigState { include_private: true, ..r }),
        Err(e) => Err(e),
    }
}

/// `result` in strict mode (errors are kept).
pub open spec fn made_strict(result: Result<ConfigState, Seq<char>>) -> Result<ConfigState, Seq<char>> {
    match result {
        Ok(r) => Ok(ConfigState { strict: true, ..r }),
        Err(e) => Err(e),
    }
}

proof fn lemma_parse_shift(x: Seq<Seq<char>>, rest: Seq<Seq<char>>, index: nat, state: ConfigState)
    ensures
        parse_from(x + rest, x.len() + index, state) == parse_from(rest, index, state),
    decreases rest.len() - index,
{
    let args = x + rest;
    if index < rest.len() {
        let arg = rest[index as int];
        assert(args[(x.len() + index) as int] == arg);
        if index + 1 < rest.len() {
            let value = rest[index + 1 as int];
            assert(args[(x.len() + index + 1) as int] == value);
            let next = if arg == "--org"@ {
                ConfigState { org: value, ..state }
            } else if arg == "--limit"@ {
                ConfigState { limit: parse_unsigned(value, usize::MAX as nat).unwrap(), ..state }
            } else if arg == "--min-score"@ {
                ConfigState { min_score: parse_unsigned(value, 255).unwrap(), ..state }
            } else {
                ConfigState { format: OutputFormat::from_label(value).unwrap(), ..state }
            };
            lemma_parse_shift(x, rest, index + 2, next);
        }
        let flagged = if arg == "--include-private"@ {
            ConfigState { include_private: true, ..state }
        } else {
            ConfigState { strict: true, ..state }
        };
        lemma_parse_shift(x, rest, index + 1, flagged);
    }
}

proof fn lemma_parse_with_flags(args: Seq<Seq<char>>, index: nat, state: ConfigState)
    ensures
        parse_from(args, index, ConfigState { include_private: true, ..state }) == including_private(
            parse_from(args, index, state),
        ),
        parse_from(args, index, ConfigState { strict: true, ..state }) == made_strict(parse_from(args, index, state)),
    decreases args.len() - index,
{
    if index < args.len() {
        let arg = args[index as int];
        if index + 1 < args.len() {
            let value = args[index + 1 as int];
            let next = if arg == "--org"@ {
                ConfigState { org: value, ..state }
            } else if arg == "--limit"@ {
                ConfigState { limit: parse_unsigned(value, usize::MAX as nat).unwrap(), ..state }
            } else if arg == "--min-score"@ {
                ConfigState { min_score: parse_unsigned(value, 255).unwrap(), ..state }
            } else {
                ConfigState { format: OutputFormat::from_label(value).unwrap(), ..state }
            };
            lemma_parse_with_flags(args, index + 2, next);
        }
        let flagged = if arg == "--include-private"@ {
            ConfigState { include_private: true, ..state }
        } else {
            ConfigState { strict: true, ..state }
        };
        lemma_parse_with_flags(args, index + 1, flagged);
    }
}

/// `--include-private` and `--strict` each set their own option and nothing else: in front
/// of any other arguments, they give what those arguments give, with private repositories
/// included or in strict mode (and the same error where those arguments are refused).
pub proof fn lemma_leading_flag_sets_only_its_option(rest: Seq<Seq<char>>)
    ensures
        parse_args(seq!["--include-private"@] + rest) == including_private(parse_args(rest)),
        parse_args(seq!["--strict"@] + rest) == made_strict(parse_args(rest)),
{
    reveal_strlit("--include-private");
    reveal_strlit("--strict");
    reveal_strlit("--org");
    reveal_strlit("--limit");
    reveal_strlit("--min-score");
    reveal_strlit("--format");
    let ip = seq!["--include-private"@];
    let st = seq!["--strict"@];
    assert((ip + rest)[0] == "--include-private"@);
    assert((st + rest)[0] == "--strict"@);
    assert("--include-private"@ != "--org"@ && "--include-private"@ != "--limit"@);
    assert("--include-private"@ != "--min-score"@ && "--include-private"@ != "--format"@);
    assert("--strict"@ != "--org"@ && "--strict"@ != "--limit"@ && "--strict"@ != "--min-score"@);
    assert("--strict"@[2] != "--format"@[2]);
    assert("--strict"@ != "--format"@ && "--strict"@ != "--include-private"@);
    lemma_parse_shift(ip, rest, 0, ConfigState { include_private: true, ..default_state() });
    lemma_parse_shift(st, rest, 0, ConfigState { strict: true, ..default_state() });
    lemma_parse_with_flags(rest, 0, default_state());
}

} // verus!
