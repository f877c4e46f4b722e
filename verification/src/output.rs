//! Rendering audits as a terminal table, a markdown report or JSON.
use vstd::prelude::*;
use vstd::utf8::encode_utf8;
use crate::audit::{lemma_name_texts_push, tally_audits, count_below, count_with_readme, name_texts, string_texts, RepoAudit};
use crate::text::{decimal, decimal_string, push_decimal};
use crate::text::push_char;

verus! {

broadcast use vstd::seq_lib::group_seq_properties;

// ---------------------------------------------------------------------------
// Joining and padding
// ---------------------------------------------------------------------------

/// The items separated by `sep`.
pub open spec fn join(items: Seq<Seq<char>>, sep: Seq<char>) -> Seq<char>
    decreases items.len(),
{
    if items.len() == 0 {
        seq![]
    } else if items.len() == 1 {
        items[0]
    } else {
        join(items.drop_last(), sep) + sep + items.last()
    }
}

/// `-` for no items, otherwise the items separated by `sep`.
pub open spec fn dash_or_join(items: Seq<Seq<char>>, sep: Seq<char>) -> Seq<char> {
    if items.len() == 0 {
        "-"@
    } else {
        join(items, sep)
    }
}

/// How a list of section names is shown.
pub open spec fn missing_text(names: Seq<Seq<char>>) -> Seq<char> {
    dash_or_join(names, ", "@)
}

/// How a list of notes is shown.
pub open spec fn notes_text(notes: Seq<Seq<char>>) -> Seq<char> {
    dash_or_join(notes, " | "@)
}

/// `n` copies of `c`.
pub open spec fn repeated(c: char, n: nat) -> Seq<char> {
    Seq::new(n, |i: int| c)
}

/// `s` followed by spaces up to `width` characters.
pub open spec fn pad_right(s: Seq<char>, width: nat) -> Seq<char> {
    if s.len() < width {
        s + repeated(' ', (width - s.len()) as nat)
    } else {
        s
    }
}

/// `s` preceded by spaces up to `width` characters.
pub open spec fn pad_left(s: Seq<char>, width: nat) -> Seq<char> {
    if s.len() < width {
        repeated(' ', (width - s.len()) as nat) + s
    } else {
        s
    }
}

/// The length of `s` in UTF-8 bytes (what `str::len` gives).
pub open spec fn byte_len(s: Seq<char>) -> nat {
    encode_utf8(s).len()
}

/// The larger of two numbers.
pub open spec fn larger(a: nat, b: nat) -> nat {
    if a >= b {
        a
    } else {
        b
    }
}

/// The width of a table column: the largest byte length of its header and its cells.
pub open spec fn column_width(header: Seq<char>, cells: Seq<Seq<char>>) -> nat
    decreases cells.len(),
{
    if cells.len() == 0 {
        byte_len(header)
    } else {
        larger(column_width(header, cells.drop_last()), byte_len(cells.last()))
    }
}

/// Appends `n` copies of `c` to `out`.
fn push_repeated(out: &mut String, c: char, n: usize)
    ensures
        final(out)@ == old(out)@ + repeated(c, n as nat),
{
    let mut i: usize = 0;
    while i < n
        invariant
            i <= n,
            out@ == old(out)@ + repeated(c, i as nat),
        decreases n - i,
    {
        push_char(out, c);
        i = i + 1;
        assert(out@ =~= old(out)@ + repeated(c, i as nat));
    }
}

/// The number of characters of `s`.
fn char_count(s: &str) -> (n: usize)
    ensures
        n == s@.len(),
{
    s.unicode_len()
}

/// Appends `s` padded with spaces on the right to `width` characters.
fn push_padded_right(out: &mut String, s: &str, width: usize)
    ensures
        final(out)@ == old(out)@ + pad_right(s@, width as nat),
{
    out.append(s);
    let n = char_count(s);
    if n < width {
        push_repeated(out, ' ', width - n);
    }
    assert(out@ =~= old(out)@ + pad_right(s@, width as nat));
}

/// Appends `s` padded with spaces on the left to `width` characters.
fn push_padded_left(out: &mut String, s: &str, width: usize)
    ensures
        final(out)@ == old(out)@ + pad_left(s@, width as nat),
{
    let n = char_count(s);
    if n < width {
        push_repeated(out, ' ', width - n);
    }
    out.append(s);
    assert(out@ =~= old(out)@ + pad_left(s@, width as nat));
}

/// The names separated by `sep`, or `-` when there are none.
fn join_names(items: &[&str], sep: &str) -> (s: String)
    ensures
        s@ == dash_or_join(name_texts(items@), sep@),
{
    let ghost texts = name_texts(items@);
    if items.len() == 0 {
        return "-".to_owned();
    }
    let mut s = String::new();
    let mut i: usize = 0;
    while i < items.len()
        invariant
            texts == name_texts(items@),
            i <= items@.len(),
            items@.len() > 0,
            i == 0 ==> s@ == Seq::<char>::empty(),
            i > 0 ==> s@ == join(texts.take(i as int), sep@),
        decreases items@.len() - i,
    {
        if i > 0 {
            s.append(sep);
        }
        s.append(items[i]);
        assert(texts.take(i + 1).drop_last() =~= texts.take(i as int));
        i = i + 1;
    }
    assert(texts.take(i as int) =~= texts);
    s
}

/// The strings separated by `sep`, or `-` when there are none.
fn join_strings(items: &[String], sep: &str) -> (s: String)
    ensures
        s@ == dash_or_join(string_texts(items@), sep@),
{
    let ghost texts = string_texts(items@);
    if items.len() == 0 {
        return "-".to_owned();
    }
    let mut s = String::new();
    let mut i: usize = 0;
    while i < items.len()
        invariant
            texts == string_texts(items@),
            i <= items@.len(),
            items@.len() > 0,
            i == 0 ==> s@ == Seq::<char>::empty(),
            i > 0 ==> s@ == join(texts.take(i as int), sep@),
        decreases items@.len() - i,
    {
        if i > 0 {
            s.append(sep);
        }
        s.append(items[i].as_str());
        assert(texts.take(i + 1).drop_last() =~= texts.take(i as int));
        i = i + 1;
    }
    assert(texts.take(i as int) =~= texts);
    s
}

/// Section names joined by `, `, or `-` when there are none.
pub fn format_missing(items: &[&str]) -> (s: String)
    ensures
        s@ == missing_text(name_texts(items@)),
{
    join_names(items, ", ")
}

/// Notes joined by ` | `, or `-` when there are none.
pub fn format_notes(notes: &[String]) -> (s: String)
    ensures
        s@ == notes_text(string_texts(notes@)),
{
    join_strings(notes, " | ")
}

// ---------------------------------------------------------------------------
// JSON strings
// ---------------------------------------------------------------------------

/// A control character (Unicode category `Cc`), as `char::is_control` decides.
pub open spec fn is_control(c: char) -> bool {
    (c as u32) <= 0x1F || (0x7F <= (c as u32) && (c as u32) <= 0x9F)
}

/// The lowercase hexadecimal digit of `d < 16`.
pub open spec fn hex_digit(d: nat) -> char {
    if d < 10 {
        (48 + d) as char
    } else {
        (87 + d) as char
    }
}

/// Four lowercase hexadecimal digits of `u < 0x10000`.
pub open spec fn hex4(u: nat) -> Seq<char> {
    seq![hex_digit(u / 4096 % 16), hex_digit(u / 256 % 16), hex_digit(u / 16 % 16), hex_digit(u % 16)]
}

/// How one character is written inside a JSON string.
pub open spec fn escape_char(c: char) -> Seq<char> {
    if c == '"' {
        "\\\""@
    } else if c == '\\' {
        "\\\\"@
    } else if c == '\n' {
        "\\n"@
    } else if c == '\r' {
        "\\r"@
    } else if c == '\t' {
        "\\t"@
    } else if is_control(c) {
        "\\u"@ + hex4(c as nat)
    } else {
        seq![c]
    }
}

/// `s` escaped for use inside a JSON string.
pub open spec fn escape_json_text(s: Seq<char>) -> Seq<char>
    decreases s.len(),
{
    if s.len() == 0 {
        seq![]
    } else {
        escape_json_text(s.drop_last()) + escape_char(s.last())
    }
}

/// `s` as a JSON string literal.
pub open spec fn quoted(s: Seq<char>) -> Seq<char> {
    "\""@ + escape_json_text(s) + "\""@
}

/// The quoted strings of `items`.
pub open spec fn quoted_all(items: Seq<Seq<char>>) -> Seq<Seq<char>> {
    items.map_values(|t: Seq<char>| quoted(t))
}

/// `items` as a JSON array of strings, on one line.
pub open spec fn json_list(items: Seq<Seq<char>>) -> Seq<char> {
    "["@ + join(quoted_all(items), ", "@) + "]"@
}

/// The value of a hexadecimal digit of either case.
pub open spec fn hex_value(c: char) -> Option<nat> {
    if '0' <= c <= '9' {
        Some(((c as int) - 48) as nat)
    } else if 'a' <= c <= 'f' {
        Some(((c as int) - 87) as nat)
    } else if 'A' <= c <= 'F' {
        Some(((c as int) - 55) as nat)
    } else {
        None
    }
}

/// `c` in front of a decoded text, when there is one.
pub open spec fn prepend_decoded(c: char, rest: Option<Seq<char>>) -> Option<Seq<char>> {
    match rest {
        Some(r) => Some(seq![c] + r),
        None => None,
    }
}

/// The character that a one-letter JSON escape (after `\`) stands for.
pub open spec fn simple_escape(e: char) -> Option<char> {
    if e == '"' {
        Some('"')
    } else if e == '\\' {
        Some('\\')
    } else if e == '/' {
        Some('/')
    } else if e == 'b' {
        Some('\u{8}')
    } else if e == 'f' {
        Some('\u{c}')
    } else if e == 'n' {
        Some('\n')
    } else if e == 'r' {
        Some('\r')
    } else if e == 't' {
        Some('\t')
    } else {
        None
    }
}

/// Reads the text between the quotes of a JSON string literal (RFC 8259): unescaped
/// characters other than `"`, `\` and those below U+0020 stand for themselves; `\` starts
/// an escape. A `\uXXXX` escape names one character; surrogate code units are not read
/// (this decoder does not join surrogate pairs). `None` when the text is not such a string.
pub open spec fn decode_json_text(s: Seq<char>) -> Option<Seq<char>>
    decreases s.len(),
{
    if s.len() == 0 {
        Some(seq![])
    } else if s[0] != '\\' {
        if s[0] == '"' || (s[0] as u32) < 0x20 {
            None
        } else {
            prepend_decoded(s[0], decode_json_text(s.drop_first()))
        }
    } else if s.len() < 2 {
        None
    } else {
        match simple_escape(s[1]) {
            Some(c) => prepend_decoded(c, decode_json_text(s.skip(2))),
            None => if s[1] == 'u' && s.len() >= 6 {
                match (hex_value(s[2]), hex_value(s[3]), hex_value(s[4]), hex_value(s[5])) {
                    (Some(a), Some(b), Some(c), Some(d)) => {
                        let v = a * 4096 + b * 256 + c * 16 + d;
                        if 0xD800 <= v <= 0xDFFF {
                            None
                        } else {
                            prepend_decoded(v as char, decode_json_text(s.skip(6)))
                        }
                    },
                    _ => None,
                }
            } else {
                None
            },
        }
    }
}

pub(crate) proof fn lemma_escape_concat(x: Seq<char>, y: Seq<char>)
    ensures
        escape_json_text(x + y) == escape_json_text(x) + escape_json_text(y),
    decreases y.len(),
{
    if y.len() == 0 {
        assert(x + y =~= x);
        assert(escape_json_text(x) + escape_json_text(y) =~= escape_json_text(x));
    } else {
        lemma_escape_concat(x, y.drop_last());
        assert((x + y).drop_last() =~= x + y.drop_last());
        assert((x + y).last() == y.last());
        assert(escape_json_text(x + y) =~= escape_json_text(x) + escape_json_text(y));
    }
}

pub(crate) proof fn lemma_hex_digit_value(d: nat)
    requires
        d < 16,
    ensures
        hex_value(hex_digit(d)) == Some(d),
{
    assert((hex_digit(d) as int) == if d < 10 { 48 + d } else { 87 + d });
}

proof fn lemma_decode_escaped_char(c: char, rest: Seq<char>)
    ensures
        decode_json_text(escape_char(c) + rest) == prepend_decoded(c, decode_json_text(rest)),
{
    reveal_strlit("\\\"");
    reveal_strlit("\\\\");
    reveal_strlit("\\n");
    reveal_strlit("\\r");
    reveal_strlit("\\t");
    reveal_strlit("\\u");
    let s = escape_char(c) + rest;
    if c == '"' || c == '\\' || c == '\n' || c == '\r' || c == '\t' {
        assert(s.skip(2) =~= rest);
    } else if is_control(c) {
        let u = c as nat;
        assert(u <= 0x9F);
        lemma_hex_digit_value(u / 4096 % 16);
        lemma_hex_digit_value(u / 256 % 16);
        lemma_hex_digit_value(u / 16 % 16);
        lemma_hex_digit_value(u % 16);
        assert(s[2] == hex_digit(u / 4096 % 16));
        assert(s[3] == hex_digit(u / 256 % 16));
        assert(s[4] == hex_digit(u / 16 % 16));
        assert(s[5] == hex_digit(u % 16));
        assert((u / 4096 % 16) * 4096 + (u / 256 % 16) * 256 + (u / 16 % 16) * 16 + u % 16 == u) by (nonlinear_arith)
            requires
                u <= 0x9F,
        ;
        assert(s.skip(6) =~= rest);
        assert((u as char) == c);
    } else {
        assert(s.drop_first() =~= rest);
    }
}

/// Escaping can be undone: reading the escaped text as the inside of a JSON string literal
/// gives back the original text.
pub proof fn lemma_escape_json_decodes(value: Seq<char>)
    ensures
        decode_json_text(escape_json_text(value)) == Some(value),
    decreases value.len(),
{
    if value.len() == 0 {
    } else {
        let first = value[0];
        let rest = value.drop_first();
        assert(value =~= seq![first] + rest);
        lemma_escape_concat(seq![first], rest);
        let single = seq![first];
        assert(single.drop_last() =~= Seq::<char>::empty());
        assert(single.last() == first);
        assert(escape_json_text(single.drop_last()) == Seq::<char>::empty());
        assert(escape_json_text(single) == escape_json_text(single.drop_last()) + escape_char(first));
        assert(escape_json_text(single) =~= escape_char(first));
        lemma_escape_json_decodes(rest);
        lemma_decode_escaped_char(first, escape_json_text(rest));
        assert(seq![first] + rest =~= value);
    }
}

proof fn lemma_escape_char_no_control(c: char)
    ensures
        forall|i: int| 0 <= i < escape_char(c).len() ==> !is_control(#[trigger] escape_char(c)[i]),
{
    reveal_strlit("\\\"");
    reveal_strlit("\\\\");
    reveal_strlit("\\n");
    reveal_strlit("\\r");
    reveal_strlit("\\t");
    reveal_strlit("\\u");
    if is_control(c) && !(c == '"' || c == '\\' || c == '\n' || c == '\r' || c == '\t') {
        let u = c as nat;
        assert forall|i: int| 0 <= i < escape_char(c).len() implies !is_control(#[trigger] escape_char(c)[i]) by {
            if i >= 2 {
                let d = if i == 2 {
                    u / 4096 % 16
                } else if i == 3 {
                    u / 256 % 16
                } else if i == 4 {
                    u / 16 % 16
                } else {
                    u % 16
                };
                assert(escape_char(c)[i] == hex_digit(d));
                assert((hex_digit(d) as int) == if d < 10 { 48 + d } else { 87 + d });
            }
        }
    }
}

/// Escaped text holds no control character.
pub proof fn lemma_escape_json_no_control(value: Seq<char>)
    ensures
        forall|i: int| 0 <= i < escape_json_text(value).len() ==> !is_control(#[trigger] escape_json_text(value)[i]),
    decreases value.len(),
{
    if value.len() > 0 {
        lemma_escape_json_no_control(value.drop_last());
        lemma_escape_char_no_control(value.last());
        let a = escape_json_text(value.drop_last());
        let b = escape_char(value.last());
        assert forall|i: int| 0 <= i < (a + b).len() implies !is_control(#[trigger] (a + b)[i]) by {
            if i < a.len() {
                assert((a + b)[i] == a[i]);
            } else {
                assert((a + b)[i] == b[i - a.len()]);
            }
        }
    }
}

/// Text without quotes, backslashes or control characters is left as it is.
pub proof fn lemma_plain_text_unescaped(value: Seq<char>)
    requires
        forall|i: int| 0 <= i < value.len() ==> #[trigger] value[i] != '"' && value[i] != '\\' && !is_control(value[i]),
    ensures
        escape_json_text(value) == value,
    decreases value.len(),
{
    if value.len() > 0 {
        lemma_plain_text_unescaped(value.drop_last());
        let c = value.last();
        assert(value[value.len() - 1] == c);
        assert(c != '\n' && c != '\r' && c != '\t');
        assert(value.drop_last().push(c) =~= value);
    }
}

fn hex_digit_char(d: u32) -> (c: char)
    requires
        d < 16,
    ensures
        c == hex_digit(d as nat),
{
    if d == 0 {
        '0'
    } else if d == 1 {
        '1'
    } else if d == 2 {
        '2'
    } else if d == 3 {
        '3'
    } else if d == 4 {
        '4'
    } else if d == 5 {
        '5'
    } else if d == 6 {
        '6'
    } else if d == 7 {
        '7'
    } else if d == 8 {
        '8'
    } else if d == 9 {
        '9'
    } else if d == 10 {
        'a'
    } else if d == 11 {
        'b'
    } else if d == 12 {
        'c'
    } else if d == 13 {
        'd'
    } else if d == 14 {
        'e'
    } else {
        'f'
    }
}

/// Appends the escaped form of `c`.
fn push_escaped(out: &mut String, c: char)
    ensures
        final(out)@ == old(out)@ + escape_char(c),
{
    if c == '"' {
        out.append("\\\"");
    } else if c == '\\' {
        out.append("\\\\");
    } else if c == '\n' {
        out.append("\\n");
    } else if c == '\r' {
        out.append("\\r");
    } else if c == '\t' {
        out.append("\\t");
    } else if (c as u32) <= 0x1F || (0x7F <= (c as u32) && (c as u32) <= 0x9F) {
        let u = c as u32;
        out.append("\\u");
        push_char(out, hex_digit_char(u / 4096 % 16));
        push_char(out, hex_digit_char(u / 256 % 16));
        push_char(out, hex_digit_char(u / 16 % 16));
        push_char(out, hex_digit_char(u % 16));
    } else {
        push_char(out, c);
    }
    assert(out@ =~= old(out)@ + escape_char(c));
}

/// `value` escaped for use inside a JSON string.
pub fn escape_json(value: &str) -> (escaped: String)
    ensures
        escaped@ == escape_json_text(value@),
{
    let chars = crate::text::chars_of(value);
    let mut escaped = String::new();
    let mut i: usize = 0;
    while i < chars.len()
        invariant
            chars@ == value@,
            i <= chars@.len(),
            escaped@ == escape_json_text(chars@.take(i as int)),
        decreases chars@.len() - i,
    {
        push_escaped(&mut escaped, chars[i]);
        assert(chars@.take(i + 1).drop_last() =~= chars@.take(i as int));
        i = i + 1;
    }
    assert(chars@.take(i as int) =~= chars@);
    escaped
}

/// Appends `s` as a JSON string literal.
fn push_quoted(out: &mut String, s: &str)
    ensures
        final(out)@ == old(out)@ + quoted(s@),
{
    out.append("\"");
    let e = escape_json(s);
    out.append(e.as_str());
    out.append("\"");
    assert(out@ =~= old(out)@ + quoted(s@));
}

/// Section names as a JSON array of strings.
pub fn render_json_string_list(items: &[&str]) -> (s: String)
    ensures
        s@ == json_list(name_texts(items@)),
{
    let ghost texts = quoted_all(name_texts(items@));
    let mut s = "[".to_owned();
    let mut i: usize = 0;
    while i < items.len()
        invariant
            texts == quoted_all(name_texts(items@)),
            i <= items@.len(),
            s@ == "["@ + join(texts.take(i as int), ", "@),
        decreases items@.len() - i,
    {
        let ghost before = s@;
        if i > 0 {
            s.append(", ");
        }
        push_quoted(&mut s, items[i]);
        assert(texts[i as int] == quoted(items@[i as int]@));
        assert(texts.take(i + 1).drop_last() =~= texts.take(i as int));
        assert(i == 0 ==> texts.take(i + 1) =~= seq![texts[0]]);
        assert(s@ =~= "["@ + join(texts.take(i + 1), ", "@));
        i = i + 1;
    }
    s.append("]");
    assert(texts.take(i as int) =~= texts);
    s
}

/// Notes as a JSON array of strings.
pub fn render_json_note_list(items: &[String]) -> (s: String)
    ensures
        s@ == json_list(string_texts(items@)),
{
    let ghost texts = quoted_all(string_texts(items@));
    let mut s = "[".to_owned();
    let mut i: usize = 0;
    while i < items.len()
        invariant
            texts == quoted_all(string_texts(items@)),
            i <= items@.len(),
            s@ == "["@ + join(texts.take(i as int), ", "@),
        decreases items@.len() - i,
    {
        if i > 0 {
            s.append(", ");
        }
        push_quoted(&mut s, items[i].as_str());
        assert(texts[i as int] == quoted(items@[i as int]@));
        assert(texts.take(i + 1).drop_last() =~= texts.take(i as int));
        assert(i == 0 ==> texts.take(i + 1) =~= seq![texts[0]]);
        assert(s@ =~= "["@ + join(texts.take(i + 1), ", "@));
        i = i + 1;
    }
    s.append("]");
    assert(texts.take(i as int) =~= texts);
    s
}

// ---------------------------------------------------------------------------
// The terminal table
// ---------------------------------------------------------------------------

/// The cells of one table row.
pub struct RowText {
    pub repo: Seq<char>,
    pub score: Seq<char>,
    pub status: Seq<char>,
    pub missing_required: Seq<char>,
    pub notes: Seq<char>,
}

/// The table row of an audit.
pub open spec fn row_text(a: RepoAudit) -> RowText {
    RowText {
        repo: a.repo.name@,
        score: decimal(a.score as nat),
        status: a.status.label(),
        missing_required: missing_text(name_texts(a.missing_required@)),
        notes: notes_text(string_texts(a.notes@)),
    }
}

/// The table rows of a list of audits.
pub open spec fn rows_of(audits: Seq<RepoAudit>) -> Seq<RowText> {
    audits.map_values(|a: RepoAudit| row_text(a))
}

/// Cell `col` of a row: 0 repository, 1 score, 2 status, 3 missing required sections.
pub open spec fn row_cell(r: RowText, col: int) -> Seq<char> {
    if col == 0 {
        r.repo
    } else if col == 1 {
        r.score
    } else if col == 2 {
        r.status
    } else {
        r.missing_required
    }
}

/// Column `col` of the rows.
pub open spec fn column(rows: Seq<RowText>, col: int) -> Seq<Seq<char>> {
    rows.map_values(|r: RowText| row_cell(r, col))
}

/// The header of column `col`.
pub open spec fn column_header(col: int) -> Seq<char> {
    if col == 0 {
        "Repo"@
    } else if col == 1 {
        "Score"@
    } else if col == 2 {
        "Status"@
    } else {
        "Missing Required"@
    }
}

/// The widths of the four padded columns.
pub struct TableWidths {
    pub repo: nat,
    pub score: nat,
    pub status: nat,
    pub required: nat,
}

/// The column widths for the rows: each the largest byte length of the header and the cells.
pub open spec fn table_widths(rows: Seq<RowText>) -> TableWidths {
    TableWidths {
        repo: column_width(column_header(0), column(rows, 0)),
        score: column_width(column_header(1), column(rows, 1)),
        status: column_width(column_header(2), column(rows, 2)),
        required: column_width(column_header(3), column(rows, 3)),
    }
}

/// One line of the table: the repository, status and missing-sections columns padded on
/// the right, the score column on the left, two spaces between columns, notes last.
pub open spec fn table_line(w: TableWidths, repo: Seq<char>, score: Seq<char>, status: Seq<char>, required: Seq<char>, notes: Seq<char>) -> Seq<char> {
    pad_right(repo, w.repo) + "  "@ + pad_left(score, w.score) + "  "@ + pad_right(status, w.status) + "  "@
        + pad_right(required, w.required) + "  "@ + notes + "\n"@
}

/// The rule under the table header.
pub open spec fn table_rule(w: TableWidths) -> Seq<char> {
    repeated('-', w.repo) + "  "@ + repeated('-', w.score) + "  "@ + repeated('-', w.status) + "  "@
        + repeated('-', w.required) + "  -----\n"@
}

/// The lines of the rows.
pub open spec fn table_body(rows: Seq<RowText>, w: TableWidths) -> Seq<char>
    decreases rows.len(),
{
    if rows.len() == 0 {
        seq![]
    } else {
        let r = rows.last();
        table_body(rows.drop_last(), w) + table_line(w, r.repo, r.score, r.status, r.missing_required, r.notes)
    }
}

/// The summary lines at the top of the table report.
pub open spec fn table_summary(audits: Seq<RepoAudit>, org: Seq<char>, min_score: nat, average: Seq<char>) -> Seq<char> {
    "Organization: "@ + org + "\n"@ + "Repositories scanned: "@ + decimal(audits.len()) + "\n"@
        + "READMEs found: "@ + decimal(count_with_readme(audits)) + "\n"@ + "Average score: "@ + average
        + "\n"@ + "Below target ("@ + decimal(min_score) + "): "@ + decimal(count_below(audits, min_score))
        + "\n"@ + "\n"@
}

/// The table report: the summary, then (when there are audits) the header, the rule and
/// one line per audit.
pub open spec fn table_report(audits: Seq<RepoAudit>, org: Seq<char>, min_score: nat, average: Seq<char>) -> Seq<char> {
    let rows = rows_of(audits);
    let w = table_widths(rows);
    let summary = table_summary(audits, org, min_score, average);
    if audits.len() == 0 {
        summary
    } else {
        summary + table_line(w, "Repo"@, "Score"@, "Status"@, "Missing Required"@, "Notes"@) + table_rule(w)
            + table_body(rows, w)
    }
}

/// One table row, as text.
struct Row {
    repo: String,
    score: String,
    status: String,
    missing_required: String,
    notes: String,
}

impl Row {
    spec fn text(&self) -> RowText {
        RowText {
            repo: self.repo@,
            score: self.score@,
            status: self.status@,
            missing_required: self.missing_required@,
            notes: self.notes@,
        }
    }
}

/// The table rows of the audits.
fn build_rows(audits: &[RepoAudit]) -> (rows: Vec<Row>)
    ensures
        rows@.len() == audits@.len(),
        forall|k: int| 0 <= k < rows@.len() ==> #[trigger] rows@[k].text() == row_text(audits@[k]),
{
    let mut rows: Vec<Row> = Vec::new();
    let mut i: usize = 0;
    while i < audits.len()
        invariant
            i <= audits@.len(),
            rows@.len() == i,
            forall|k: int| 0 <= k < i ==> #[trigger] rows@[k].text() == row_text(audits@[k]),
        decreases audits@.len() - i,
    {
        let audit = &audits[i];
        let row = Row {
            repo: audit.repo.name.clone(),
            score: decimal_string(audit.score as u64),
            status: audit.status.as_str().to_owned(),
            missing_required: format_missing(audit.missing_required.as_slice()),
            notes: format_notes(audit.notes.as_slice()),
        };
        rows.push(row);
        i = i + 1;
    }
    rows
}

/// The cells of column `col` of the rows.
fn column_cells(rows: &Vec<Row>, col: usize) -> (cells: Vec<&str>)
    requires
        col < 4,
    ensures
        name_texts(cells@) == column(rows@.map_values(|r: Row| r.text()), col as int),
{
    let ghost texts = rows@.map_values(|r: Row| r.text());
    let mut cells: Vec<&str> = Vec::new();
    let mut i: usize = 0;
    while i < rows.len()
        invariant
            texts == rows@.map_values(|r: Row| r.text()),
            col < 4,
            i <= rows@.len(),
            name_texts(cells@) == column(texts, col as int).take(i as int),
        decreases rows@.len() - i,
    {
        let row = &rows[i];
        let cell = if col == 0 {
            row.repo.as_str()
        } else if col == 1 {
            row.score.as_str()
        } else if col == 2 {
            row.status.as_str()
        } else {
            row.missing_required.as_str()
        };
        assert(cell@ == column(texts, col as int)[i as int]);
        proof {
            lemma_name_texts_push(cells@, cell);
        }
        cells.push(cell);
        assert(name_texts(cells@) =~= column(texts, col as int).take(i + 1));
        i = i + 1;
    }
    assert(column(texts, col as int).take(i as int) =~= column(texts, col as int));
    cells
}

/// The length of `s` in UTF-8 bytes.
fn byte_length(s: &str) -> (n: usize)
    ensures
        n == byte_len(s@),
{
    s.as_bytes().len()
}

/// The width of a column: the largest byte length of its header and its cells.
fn max_width(header: &str, values: &[&str]) -> (w: usize)
    ensures
        w == column_width(header@, name_texts(values@)),
{
    let ghost texts = name_texts(values@);
    let mut w = byte_length(header);
    let mut i: usize = 0;
    while i < values.len()
        invariant
            texts == name_texts(values@),
            i <= values@.len(),
            w == column_width(header@, texts.take(i as int)),
        decreases values@.len() - i,
    {
        let n = byte_length(values[i]);
        assert(texts.take(i + 1).drop_last() =~= texts.take(i as int));
        if n > w {
            w = n;
        }
        i = i + 1;
    }
    assert(texts.take(i as int) =~= texts);
    w
}

/// Widths given as machine integers.
pub open spec fn widths_of(repo: usize, score: usize, status: usize, required: usize) -> TableWidths {
    TableWidths { repo: repo as nat, score: score as nat, status: status as nat, required: required as nat }
}

/// Appends one table line.
fn push_table_line(
    out: &mut String,
    widths: (usize, usize, usize, usize),
    repo: &str,
    score: &str,
    status: &str,
    required: &str,
    notes: &str,
)
    ensures
        final(out)@ == old(out)@ + table_line(
            widths_of(widths.0, widths.1, widths.2, widths.3),
            repo@,
            score@,
            status@,
            required@,
            notes@,
        ),
{
    push_padded_right(out, repo, widths.0);
    out.append("  ");
    push_padded_left(out, score, widths.1);
    out.append("  ");
    push_padded_right(out, status, widths.2);
    out.append("  ");
    push_padded_right(out, required, widths.3);
    out.append("  ");
    out.append(notes);
    out.append("\n");
    assert(out@ =~= old(out)@ + table_line(
        widths_of(widths.0, widths.1, widths.2, widths.3),
        repo@,
        score@,
        status@,
        required@,
        notes@,
    ));
}

/// Appends the rule under the table header.
fn push_table_rule(out: &mut String, widths: (usize, usize, usize, usize))
    ensures
        final(out)@ == old(out)@ + table_rule(widths_of(widths.0, widths.1, widths.2, widths.3)),
{
    push_repeated(out, '-', widths.0);
    out.append("  ");
    push_repeated(out, '-', widths.1);
    out.append("  ");
    push_repeated(out, '-', widths.2);
    out.append("  ");
    push_repeated(out, '-', widths.3);
    out.append("  -----\n");
    assert(out@ =~= old(out)@ + table_rule(widths_of(widths.0, widths.1, widths.2, widths.3)));
}

/// Appends `label`, the decimal `n` and a line break.
fn push_count_line(out: &mut String, label: &str, n: u64)
    ensures
        final(out)@ == old(out)@ + label@ + decimal(n as nat) + "\n"@,
{
    out.append(label);
    push_decimal(out, n);
    out.append("\n");
    assert(out@ =~= old(out)@ + label@ + decimal(n as nat) + "\n"@);
}

/// Renders the audits as a terminal table headed by a summary. `average` is the average
/// score as it is to be shown (one decimal place).
pub fn render_table(audits: &[RepoAudit], org: &str, min_score: u8, average: &str) -> (output: String)
    ensures
        output@ == table_report(audits@, org@, min_score as nat, average@),
{
    let tally = tally_audits(audits, min_score);
    let mut output = String::new();
    output.append("Organization: ");
    output.append(org);
    output.append("\n");
    push_count_line(&mut output, "Repositories scanned: ", tally.total as u64);
    push_count_line(&mut output, "READMEs found: ", tally.with_readme as u64);
    output.append("Average score: ");
    output.append(average);
    output.append("\n");
    output.append("Below target (");
    push_decimal(&mut output, min_score as u64);
    output.append("): ");
    push_decimal(&mut output, tally.below_threshold as u64);
    output.append("\n");
    output.append("\n");
    let ghost summary = output@;
    assert(summary =~= table_summary(audits@, org@, min_score as nat, average@));
    let rows = build_rows(audits);
    let ghost rows_text = rows@.map_values(|r: Row| r.text());
    assert(rows_text =~= rows_of(audits@));
    if rows.len() == 0 {
        return output;
    }
    let repo_cells = column_cells(&rows, 0);
    let score_cells = column_cells(&rows, 1);
    let status_cells = column_cells(&rows, 2);
    let required_cells = column_cells(&rows, 3);
    let widths = (
        max_width("Repo", repo_cells.as_slice()),
        max_width("Score", score_cells.as_slice()),
        max_width("Status", status_cells.as_slice()),
        max_width("Missing Required", required_cells.as_slice()),
    );
    let ghost w = widths_of(widths.0, widths.1, widths.2, widths.3);
    assert(w == table_widths(rows_text));
    push_table_line(&mut output, widths, "Repo", "Score", "Status", "Missing Required", "Notes");
    push_table_rule(&mut output, widths);
    let ghost head = output@;
    let mut i: usize = 0;
    while i < rows.len()
        invariant
            rows_text == rows@.map_values(|r: Row| r.text()),
            w == widths_of(widths.0, widths.1, widths.2, widths.3),
            i <= rows@.len(),
            output@ == head + table_body(rows_text.take(i as int), w),
        decreases rows@.len() - i,
    {
        let row = &rows[i];
        push_table_line(
            &mut output,
            widths,
            row.repo.as_str(),
            row.score.as_str(),
            row.status.as_str(),
            row.missing_required.as_str(),
            row.notes.as_str(),
        );
        assert(rows_text.take(i + 1).drop_last() =~= rows_text.take(i as int));
        assert(rows_text.take(i + 1).last() == row.text());
        assert(output@ =~= head + table_body(rows_text.take(i + 1), w));
        i = i + 1;
    }
    assert(rows_text.take(i as int) =~= rows_text);
    assert(output@ =~= table_report(audits@, org@, min_score as nat, average@));
    output
}

// ---------------------------------------------------------------------------
// The markdown report
// ---------------------------------------------------------------------------

/// The markdown table row of an audit.
pub open spec fn markdown_row(a: RepoAudit) -> Seq<char> {
    "| `"@ + a.repo.name@ + "` | "@ + decimal(a.score as nat) + " | "@ + a.status.label() + " | "@
        + missing_text(name_texts(a.missing_required@)) + " | "@ + missing_text(name_texts(a.missing_recommended@))
        + " | "@ + notes_text(string_texts(a.notes@)) + " |\n"@
}

/// The markdown table rows of the audits.
pub open spec fn markdown_rows(audits: Seq<RepoAudit>) -> Seq<char>
    decreases audits.len(),
{
    if audits.len() == 0 {
        seq![]
    } else {
        markdown_rows(audits.drop_last()) + markdown_row(audits.last())
    }
}

/// The markdown report: a heading, a summary list, and a table with one row per audit.
pub open spec fn markdown_report(audits: Seq<RepoAudit>, org: Seq<char>, min_score: nat, average: Seq<char>) -> Seq<char> {
    markdown_head(audits, org, min_score, average) + markdown_rows(audits)
}

/// The markdown report up to the table rows.
pub open spec fn markdown_head(audits: Seq<RepoAudit>, org: Seq<char>, min_score: nat, average: Seq<char>) -> Seq<char> {
    "## Documentation Audit Report\n"@ + "\n"@ + "- Organization: `"@ + org + "`\n"@ + "- Repositories scanned: "@
        + decimal(audits.len()) + "\n"@ + "- READMEs found: "@ + decimal(count_with_readme(audits)) + "\n"@
        + "- Average score: "@ + average + "\n"@ + "- Below target (`"@ + decimal(min_score) + "`): "@
        + decimal(count_below(audits, min_score)) + "\n"@ + "\n"@
        + "| Repo | Score | Status | Missing Required | Missing Recommended | Notes |\n"@
        + "| --- | ---: | --- | --- | --- | --- |\n"@
}

/// Appends the markdown row of an audit.
fn push_markdown_row(out: &mut String, audit: &RepoAudit)
    ensures
        final(out)@ == old(out)@ + markdown_row(*audit),
{
    out.append("| `");
    out.append(audit.repo.name.as_str());
    out.append("` | ");
    push_decimal(out, audit.score as u64);
    out.append(" | ");
    out.append(audit.status.as_str());
    out.append(" | ");
    let required = format_missing(audit.missing_required.as_slice());
    out.append(required.as_str());
    out.append(" | ");
    let recommended = format_missing(audit.missing_recommended.as_slice());
    out.append(recommended.as_str());
    out.append(" | ");
    let notes = format_notes(audit.notes.as_slice());
    out.append(notes.as_str());
    out.append(" |\n");
    assert(out@ =~= old(out)@ + markdown_row(*audit));
}

/// Renders the audits as a markdown report. `average` is the average score as it is to
/// be shown (one decimal place).
pub fn render_markdown(audits: &[RepoAudit], org: &str, min_score: u8, average: &str) -> (output: String)
    ensures
        output@ == markdown_report(audits@, org@, min_score as nat, average@),
{
    let tally = tally_audits(audits, min_score);
    let mut output = "## Documentation Audit Report\n".to_owned();
    output.append("\n");
    output.append("- Organization: `");
    output.append(org);
    output.append("`\n");
    push_count_line(&mut output, "- Repositories scanned: ", tally.total as u64);
    push_count_line(&mut output, "- READMEs found: ", tally.with_readme as u64);
    output.append("- Average score: ");
    output.append(average);
    output.append("\n");
    output.append("- Below target (`");
    push_decimal(&mut output, min_score as u64);
    output.append("`): ");
    push_decimal(&mut output, tally.below_threshold as u64);
    output.append("\n");
    output.append("\n");
    output.append("| Repo | Score | Status | Missing Required | Missing Recommended | Notes |\n");
    output.append("| --- | ---: | --- | --- | --- | --- |\n");
    let ghost head = output@;
    assert(head =~= markdown_head(audits@, org@, min_score as nat, average@));
    assert(audits@.take(0) =~= Seq::<RepoAudit>::empty());
    let mut i: usize = 0;
    while i < audits.len()
        invariant
            i <= audits@.len(),
            output@ == head + markdown_rows(audits@.take(i as int)),
        decreases audits@.len() - i,
    {
        push_markdown_row(&mut output, &audits[i]);
        assert(audits@.take(i + 1).drop_last() =~= audits@.take(i as int));
        assert(output@ =~= head + markdown_rows(audits@.take(i + 1)));
        i = i + 1;
    }
    assert(audits@.take(i as int) =~= audits@);
    assert(output@ =~= markdown_report(audits@, org@, min_score as nat, average@));
    output
}

// ---------------------------------------------------------------------------
// The JSON report
// ---------------------------------------------------------------------------

/// The text that opens an object member: whitespace, the quoted key, a colon and a space.
pub open spec fn member_head(ws: Seq<char>, key: Seq<char>) -> Seq<char> {
    ws + quoted(key) + ": "@
}

/// The JSON object of an audit, from its opening to its closing brace.
#[verifier::opaque]
pub open spec fn entry_object(a: RepoAudit) -> Seq<char> {
    "{"@ + member_head("\n      "@, "name"@) + quoted(a.repo.name@) + ","@ + member_head("\n      "@, "score"@)
        + decimal(a.score as nat) + ","@ + member_head("\n      "@, "status"@) + quoted(a.status.label()) + ","@
        + member_head("\n      "@, "missing_required"@) + json_list(name_texts(a.missing_required@)) + ","@
        + member_head("\n      "@, "missing_recommended"@) + json_list(name_texts(a.missing_recommended@)) + ","@
        + member_head("\n      "@, "notes"@) + json_list(string_texts(a.notes@)) + "\n    }"@
}

/// The JSON object of an audit on its own lines, followed by a comma unless it is the
/// last one.
pub open spec fn json_entry(a: RepoAudit, last: bool) -> Seq<char> {
    "    "@ + entry_object(a) + (if last {
        ""@
    } else {
        ","@
    }) + "\n"@
}

/// The JSON objects of the audits, the one at position `total - 1` being the last.
pub open spec fn json_entries(audits: Seq<RepoAudit>, total: nat) -> Seq<char>
    decreases audits.len(),
{
    if audits.len() == 0 {
        seq![]
    } else {
        json_entries(audits.drop_last(), total) + json_entry(audits.last(), audits.len() == total)
    }
}

/// The JSON report without its final line break: the summary fields and the list of
/// audits.
#[verifier::opaque]
pub open spec fn report_object(audits: Seq<RepoAudit>, org: Seq<char>, min_score: nat, average: Seq<char>) -> Seq<char> {
    "{"@ + member_head("\n  "@, "organization"@) + quoted(org) + ","@ + member_head("\n  "@, "repositories_scanned"@)
        + decimal(audits.len()) + ","@ + member_head("\n  "@, "readmes_found"@) + decimal(count_with_readme(audits))
        + ","@ + member_head("\n  "@, "average_score"@) + average + ","@ + member_head("\n  "@, "below_target"@)
        + decimal(count_below(audits, min_score)) + ","@ + member_head("\n  "@, "repos"@) + "["@ + "\n"@
        + json_entries(audits, audits.len()) + "  ]"@ + "\n}"@
}

/// The JSON report.
pub open spec fn json_report(audits: Seq<RepoAudit>, org: Seq<char>, min_score: nat, average: Seq<char>) -> Seq<char> {
    report_object(audits, org, min_score, average) + "\n"@
}

/// Appends the opening of an object member.
fn push_member_head(out: &mut String, ws: &str, key: &str)
    ensures
        final(out)@ == old(out)@ + member_head(ws@, key@),
{
    out.append(ws);
    push_quoted(out, key);
    out.append(": ");
    assert(out@ =~= old(out)@ + member_head(ws@, key@));
}

/// Appends the JSON object of an audit.
fn push_json_entry(out: &mut String, audit: &RepoAudit, last: bool)
    ensures
        final(out)@ == old(out)@ + json_entry(*audit, last),
{
    let mut e = "{".to_owned();
    push_member_head(&mut e, "\n      ", "name");
    push_quoted(&mut e, audit.repo.name.as_str());
    e.append(",");
    push_member_head(&mut e, "\n      ", "score");
    push_decimal(&mut e, audit.score as u64);
    e.append(",");
    push_member_head(&mut e, "\n      ", "status");
    push_quoted(&mut e, audit.status.as_str());
    e.append(",");
    push_member_head(&mut e, "\n      ", "missing_required");
    let required = render_json_string_list(audit.missing_required.as_slice());
    e.append(required.as_str());
    e.append(",");
    push_member_head(&mut e, "\n      ", "missing_recommended");
    let recommended = render_json_string_list(audit.missing_recommended.as_slice());
    e.append(recommended.as_str());
    e.append(",");
    push_member_head(&mut e, "\n      ", "notes");
    let notes = render_json_note_list(audit.notes.as_slice());
    e.append(notes.as_str());
    e.append("\n    }");
    assert(e@ == entry_object(*audit)) by {
        reveal(entry_object);
    }
    let ghost start = out@;
    out.append("    ");
    out.append(e.as_str());
    if last {
        out.append("");
    } else {
        out.append(",");
    }
    out.append("\n");
    assert(out@ =~= start + json_entry(*audit, last));
}

/// Appends a member whose value is the decimal `n`, followed by a comma.
fn push_count_member(out: &mut String, key: &str, n: u64)
    ensures
        final(out)@ == old(out)@ + member_head("\n  "@, key@) + decimal(n as nat) + ","@,
{
    push_member_head(out, "\n  ", key);
    push_decimal(out, n);
    out.append(",");
    assert(out@ =~= old(out)@ + member_head("\n  "@, key@) + decimal(n as nat) + ","@);
}

/// Renders the audits as JSON. `average` is the average score as it is to be shown
/// (two decimal places).
pub fn render_json(audits: &[RepoAudit], org: &str, min_score: u8, average: &str) -> (output: String)
    ensures
        output@ == json_report(audits@, org@, min_score as nat, average@),
{
    let tally = tally_audits(audits, min_score);
    let mut output = "{".to_owned();
    push_member_head(&mut output, "\n  ", "organization");
    push_quoted(&mut output, org);
    output.append(",");
    push_count_member(&mut output, "repositories_scanned", tally.total as u64);
    push_count_member(&mut output, "readmes_found", tally.with_readme as u64);
    push_member_head(&mut output, "\n  ", "average_score");
    output.append(average);
    output.append(",");
    push_count_member(&mut output, "below_target", tally.below_threshold as u64);
    push_member_head(&mut output, "\n  ", "repos");
    output.append("[");
    output.append("\n");
    let ghost head = output@;
    let n = audits.len();
    let mut i: usize = 0;
    while i < n
        invariant
            n == audits@.len(),
            i <= n,
            output@ == head + json_entries(audits@.take(i as int), n as nat),
        decreases n - i,
    {
        push_json_entry(&mut output, &audits[i], i + 1 == n);
        assert(audits@.take(i + 1).drop_last() =~= audits@.take(i as int));
        assert(output@ =~= head + json_entries(audits@.take(i + 1), n as nat));
        i = i + 1;
    }
    assert(audits@.take(i as int) =~= audits@);
    output.append("  ]");
    output.append("\n}");
    assert(output@ == report_object(audits@, org@, min_score as nat, average@)) by {
        reveal(report_object);
    }
    output.append("\n");
    assert(output@ =~= json_report(audits@, org@, min_score as nat, average@));
    output
}

// ---------------------------------------------------------------------------
// What the summaries show
// ---------------------------------------------------------------------------

/// The table report opens with its summary: the organization, how many repositories were
/// scanned, how many of them have a README, the average score, and how many score below
/// the target, each on a line of its own, then an empty line.
pub proof fn lemma_table_summary_lines(audits: Seq<RepoAudit>, org: Seq<char>, min_score: nat, average: Seq<char>)
    ensures
        ("Organization: "@ + org + "\n"@ + "Repositories scanned: "@ + decimal(audits.len()) + "\n"@
            + "READMEs found: "@ + decimal(audits.filter(|a: RepoAudit| a.has_readme).len()) + "\n"@
            + "Average score: "@ + average + "\n"@ + "Below target ("@ + decimal(min_score) + "): "@ + decimal(
            audits.filter(|a: RepoAudit| (a.score as nat) < min_score).len(),
        ) + "\n"@ + "\n"@).is_prefix_of(table_report(audits, org, min_score, average)),
{
    crate::audit::lemma_counts_are_filters(audits, min_score);
    let summary = table_summary(audits, org, min_score, average);
    let report = table_report(audits, org, min_score, average);
    if audits.len() > 0 {
        let rows = rows_of(audits);
        let w = table_widths(rows);
        let rest = table_line(w, "Repo"@, "Score"@, "Status"@, "Missing Required"@, "Notes"@) + table_rule(w)
            + table_body(rows, w);
        assert(report =~= summary + rest);
    }
    assert(summary =~= report.subrange(0, summary.len() as int));
}

/// The markdown report opens with its title and its summary list: the organization, how
/// many repositories were scanned, how many of them have a README, the average score, and
/// how many score below the target.
pub proof fn lemma_markdown_summary_lines(audits: Seq<RepoAudit>, org: Seq<char>, min_score: nat, average: Seq<char>)
    ensures
        ("## Documentation Audit Report\n"@ + "\n"@ + "- Organization: `"@ + org + "`\n"@
            + "- Repositories scanned: "@ + decimal(audits.len()) + "\n"@ + "- READMEs found: "@ + decimal(
            audits.filter(|a: RepoAudit| a.has_readme).len(),
        ) + "\n"@ + "- Average score: "@ + average + "\n"@ + "- Below target (`"@ + decimal(min_score) + "`): "@
            + decimal(audits.filter(|a: RepoAudit| (a.score as nat) < min_score).len()) + "\n"@).is_prefix_of(
            markdown_report(audits, org, min_score, average),
        ),
{
    crate::audit::lemma_counts_are_filters(audits, min_score);
    let lines = "## Documentation Audit Report\n"@ + "\n"@ + "- Organization: `"@ + org + "`\n"@
        + "- Repositories scanned: "@ + decimal(audits.len()) + "\n"@ + "- READMEs found: "@ + decimal(
        count_with_readme(audits),
    ) + "\n"@ + "- Average score: "@ + average + "\n"@ + "- Below target (`"@ + decimal(min_score) + "`): "@
        + decimal(count_below(audits, min_score)) + "\n"@;
    let report = markdown_report(audits, org, min_score, average);
    let rest = "\n"@ + "| Repo | Score | Status | Missing Required | Missing Recommended | Notes |\n"@
        + "| --- | ---: | --- | --- | --- | --- |\n"@ + markdown_rows(audits);
    assert(report =~= lines + rest);
    assert(lines =~= report.subrange(0, lines.len() as int));
}

} // verus!
