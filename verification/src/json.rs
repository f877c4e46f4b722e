//! Reading JSON text back: a reader for JSON values (strings, numbers without exponent,
//! arrays and objects), and what the JSON report and escaped strings read as.
use vstd::prelude::*;
use crate::text::{all_digits, decimal, is_digit, lemma_decimal_digits};
use crate::audit::{count_below, count_with_readme, name_texts, string_texts, RepoAudit};
use crate::output::{entry_object, json_entries, json_entry, json_report, member_head, report_object, escape_char, escape_json_text, hex_value, join, json_list, quoted, quoted_all, simple_escape};

verus! {

broadcast use vstd::seq_lib::group_seq_properties;

/// A JSON value. Numbers are kept as their text.
pub enum JsonValue {
    Text(Seq<char>),
    Number(Seq<char>),
    List(Seq<JsonValue>),
    Object(Seq<(Seq<char>, JsonValue)>),
}

/// JSON whitespace.
pub open spec fn is_json_space(c: char) -> bool {
    c == ' ' || c == '\t' || c == '\n' || c == '\r'
}

/// `s` without its leading whitespace.
pub open spec fn skip_space(s: Seq<char>) -> Seq<char>
    decreases s.len(),
{
    if s.len() > 0 && is_json_space(s[0]) {
        skip_space(s.drop_first())
    } else {
        s
    }
}

/// `c` in front of the text of a read result.
pub open spec fn prepend_read(c: char, r: Option<(Seq<char>, Seq<char>)>) -> Option<(Seq<char>, Seq<char>)> {
    match r {
        Some((t, rest)) => Some((seq![c] + t, rest)),
        None => None,
    }
}

/// Reads the rest of a JSON string literal whose opening quote is already read: the text it
/// denotes and what follows the closing quote. Escapes are read as `decode_json_text` does.
pub open spec fn read_text(s: Seq<char>) -> Option<(Seq<char>, Seq<char>)>
    decreases s.len(),
{
    if s.len() == 0 {
        None
    } else if s[0] == '"' {
        Some((seq![], s.drop_first()))
    } else if s[0] != '\\' {
        if (s[0] as u32) < 0x20 {
            None
        } else {
            prepend_read(s[0], read_text(s.drop_first()))
        }
    } else if s.len() < 2 {
        None
    } else {
        match simple_escape(s[1]) {
            Some(c) => prepend_read(c, read_text(s.skip(2))),
            None => if s[1] == 'u' && s.len() >= 6 {
                match (hex_value(s[2]), hex_value(s[3]), hex_value(s[4]), hex_value(s[5])) {
                    (Some(a), Some(b), Some(c), Some(d)) => {
                        let v = a * 4096 + b * 256 + c * 16 + d;
                        if 0xD800 <= v <= 0xDFFF {
                            None
                        } else {
                            prepend_read(v as char, read_text(s.skip(6)))
                        }
                    },
                    _ => None,
                }
            } else {
                None
            },
        }
    }
}

/// An ASCII decimal digit.
pub open spec fn is_json_digit(c: char) -> bool {
    '0' <= c <= '9'
}

/// The number of decimal digits at the start of `s`.
pub open spec fn digit_run(s: Seq<char>) -> nat
    decreases s.len(),
{
    if s.len() > 0 && is_json_digit(s[0]) {
        1 + digit_run(s.drop_first())
    } else {
        0
    }
}

/// Reads a number: digits, optionally followed by `.` and digits.
pub open spec fn read_number(s: Seq<char>) -> Option<(Seq<char>, Seq<char>)> {
    let k = digit_run(s);
    if k == 0 {
        None
    } else if k < s.len() && s[k as int] == '.' {
        let k2 = digit_run(s.skip(k + 1 as int));
        if k2 == 0 {
            None
        } else {
            Some((s.take(k + 1 + k2 as int), s.skip(k + 1 + k2 as int)))
        }
    } else {
        Some((s.take(k as int), s.skip(k as int)))
    }
}

/// Reads one value after optional whitespace: the value and what follows it. `fuel`
/// bounds the nesting and the number of items read.
#[verifier::opaque]
pub open spec fn read_value(s: Seq<char>, fuel: nat) -> Option<(JsonValue, Seq<char>)>
    decreases fuel, 0nat,
{
    if fuel == 0 {
        None
    } else {
        let t = skip_space(s);
        if t.len() == 0 {
            None
        } else if t[0] == '"' {
            match read_text(t.drop_first()) {
                Some((x, r)) => Some((JsonValue::Text(x), r)),
                None => None,
            }
        } else if t[0] == '[' {
            let u = skip_space(t.drop_first());
            if u.len() > 0 && u[0] == ']' {
                Some((JsonValue::List(seq![]), u.drop_first()))
            } else {
                read_items(t.drop_first(), seq![], (fuel - 1) as nat)
            }
        } else if t[0] == '{' {
            let u = skip_space(t.drop_first());
            if u.len() > 0 && u[0] == '}' {
                Some((JsonValue::Object(seq![]), u.drop_first()))
            } else {
                read_members(t.drop_first(), seq![], (fuel - 1) as nat)
            }
        } else {
            match read_number(t) {
                Some((n, r)) => Some((JsonValue::Number(n), r)),
                None => None,
            }
        }
    }
}

/// Reads the items of an array after `[` (or after a `,`), `done` being those read so far.
#[verifier::opaque]
pub open spec fn read_items(s: Seq<char>, done: Seq<JsonValue>, fuel: nat) -> Option<(JsonValue, Seq<char>)>
    decreases fuel, 1nat,
{
    if fuel == 0 {
        None
    } else {
        match read_value(s, (fuel - 1) as nat) {
            None => None,
            Some((v, r)) => {
                let u = skip_space(r);
                if u.len() > 0 && u[0] == ',' {
                    read_items(u.drop_first(), done.push(v), (fuel - 1) as nat)
                } else if u.len() > 0 && u[0] == ']' {
                    Some((JsonValue::List(done.push(v)), u.drop_first()))
                } else {
                    None
                }
            },
        }
    }
}

/// Reads the members of an object after `{` (or after a `,`), `done` being those read so far.
#[verifier::opaque]
pub open spec fn read_members(s: Seq<char>, done: Seq<(Seq<char>, JsonValue)>, fuel: nat) -> Option<(JsonValue, Seq<char>)>
    decreases fuel, 1nat,
{
    if fuel == 0 {
        None
    } else {
        let t = skip_space(s);
        if t.len() == 0 || t[0] != '"' {
            None
        } else {
            match read_text(t.drop_first()) {
                None => None,
                Some((key, r)) => {
                    let u = skip_space(r);
                    if u.len() == 0 || u[0] != ':' {
                        None
                    } else {
                        match read_value(u.drop_first(), (fuel - 1) as nat) {
                            None => None,
                            Some((v, r2)) => {
                                let w = skip_space(r2);
                                if w.len() > 0 && w[0] == ',' {
                                    read_members(w.drop_first(), done.push((key, v)), (fuel - 1) as nat)
                                } else if w.len() > 0 && w[0] == '}' {
                                    Some((JsonValue::Object(done.push((key, v))), w.drop_first()))
                                } else {
                                    None
                                }
                            },
                        }
                    }
                },
            }
        }
    }
}


/// `s` is the JSON text of `v`: read with enough fuel, it gives `v` followed by nothing but
/// whitespace.
pub open spec fn parses_as(s: Seq<char>, v: JsonValue) -> bool {
    exists|fuel: nat|
        match #[trigger] read_value(s, fuel) {
            Some((w, rest)) => w == v && all_space(rest),
            None => false,
        }
}

/// The value that `s` is the JSON text of, if there is one (there is at most one: see
/// `lemma_parses_as_unique`).
pub open spec fn parse_json(s: Seq<char>) -> Option<JsonValue> {
    if exists|v: JsonValue| parses_as(s, v) {
        Some(choose|v: JsonValue| parses_as(s, v))
    } else {
        None
    }
}

proof fn lemma_value_fuel(s: Seq<char>, f: nat, g: nat)
    requires
        f <= g,
        read_value(s, f) is Some,
    ensures
        read_value(s, g) == read_value(s, f),
    decreases f, 0nat,
{
    reveal(read_value);
    reveal(read_items);
    reveal(read_members);
    let t = skip_space(s);
    if t[0] == '[' {
        let u = skip_space(t.drop_first());
        if !(u.len() > 0 && u[0] == ']') {
            lemma_items_fuel(t.drop_first(), seq![], (f - 1) as nat, (g - 1) as nat);
        }
    } else if t[0] == '{' {
        let u = skip_space(t.drop_first());
        if !(u.len() > 0 && u[0] == '}') {
            lemma_members_fuel(t.drop_first(), seq![], (f - 1) as nat, (g - 1) as nat);
        }
    }
}

proof fn lemma_items_fuel(s: Seq<char>, done: Seq<JsonValue>, f: nat, g: nat)
    requires
        f <= g,
        read_items(s, done, f) is Some,
    ensures
        read_items(s, done, g) == read_items(s, done, f),
    decreases f, 1nat,
{
    reveal(read_value);
    reveal(read_items);
    reveal(read_members);
    lemma_value_fuel(s, (f - 1) as nat, (g - 1) as nat);
    let (v, r) = read_value(s, (f - 1) as nat).unwrap();
    let u = skip_space(r);
    if u.len() > 0 && u[0] == ',' {
        lemma_items_fuel(u.drop_first(), done.push(v), (f - 1) as nat, (g - 1) as nat);
    }
}

proof fn lemma_members_fuel(s: Seq<char>, done: Seq<(Seq<char>, JsonValue)>, f: nat, g: nat)
    requires
        f <= g,
        read_members(s, done, f) is Some,
    ensures
        read_members(s, done, g) == read_members(s, done, f),
    decreases f, 1nat,
{
    reveal(read_value);
    reveal(read_items);
    reveal(read_members);
    let t = skip_space(s);
    let (key, r) = read_text(t.drop_first()).unwrap();
    let u = skip_space(r);
    lemma_value_fuel(u.drop_first(), (f - 1) as nat, (g - 1) as nat);
    let (v, r2) = read_value(u.drop_first(), (f - 1) as nat).unwrap();
    let w = skip_space(r2);
    if w.len() > 0 && w[0] == ',' {
        lemma_members_fuel(w.drop_first(), done.push((key, v)), (f - 1) as nat, (g - 1) as nat);
    }
}

/// A text is the JSON text of at most one value.
pub proof fn lemma_parses_as_unique(s: Seq<char>, v1: JsonValue, v2: JsonValue)
    requires
        parses_as(s, v1),
        parses_as(s, v2),
    ensures
        v1 == v2,
{
    let f1 = choose|fuel: nat|
        match #[trigger] read_value(s, fuel) {
            Some((w, rest)) => w == v1 && all_space(rest),
            None => false,
        };
    let f2 = choose|fuel: nat|
        match #[trigger] read_value(s, fuel) {
            Some((w, rest)) => w == v2 && all_space(rest),
            None => false,
        };
    if f1 <= f2 {
        lemma_value_fuel(s, f1, f2);
    } else {
        lemma_value_fuel(s, f2, f1);
    }
}

// ---------------------------------------------------------------------------
// Reading back what was written
// ---------------------------------------------------------------------------

/// All characters of `w` are JSON whitespace.
pub open spec fn all_space(w: Seq<char>) -> bool {
    forall|i: int| 0 <= i < w.len() ==> is_json_space(#[trigger] w[i])
}

proof fn lemma_skip_space(w: Seq<char>, t: Seq<char>)
    requires
        all_space(w),
    ensures
        skip_space(w + t) == skip_space(t),
    decreases w.len(),
{
    if w.len() > 0 {
        assert((w + t)[0] == w[0]);
        assert((w + t).drop_first() =~= w.drop_first() + t);
        lemma_skip_space(w.drop_first(), t);
    } else {
        assert(w + t =~= t);
    }
}

proof fn lemma_skip_no_space(t: Seq<char>)
    requires
        t.len() > 0,
        !is_json_space(t[0]),
    ensures
        skip_space(t) == t,
{
}

proof fn lemma_read_escaped_char(c: char, tail: Seq<char>)
    ensures
        read_text(escape_char(c) + tail) == prepend_read(c, read_text(tail)),
{
    reveal_strlit("\\\"");
    reveal_strlit("\\\\");
    reveal_strlit("\\n");
    reveal_strlit("\\r");
    reveal_strlit("\\t");
    reveal_strlit("\\u");
    let s = escape_char(c) + tail;
    if c == '"' || c == '\\' || c == '\n' || c == '\r' || c == '\t' {
        assert(s.skip(2) =~= tail);
    } else if crate::output::is_control(c) {
        let u = c as nat;
        crate::output::lemma_hex_digit_value(u / 4096 % 16);
        crate::output::lemma_hex_digit_value(u / 256 % 16);
        crate::output::lemma_hex_digit_value(u / 16 % 16);
        crate::output::lemma_hex_digit_value(u % 16);
        assert(s[2] == crate::output::hex_digit(u / 4096 % 16));
        assert(s[3] == crate::output::hex_digit(u / 256 % 16));
        assert(s[4] == crate::output::hex_digit(u / 16 % 16));
        assert(s[5] == crate::output::hex_digit(u % 16));
        assert((u / 4096 % 16) * 4096 + (u / 256 % 16) * 256 + (u / 16 % 16) * 16 + u % 16 == u) by (nonlinear_arith)
            requires
                u <= 0x9F,
        ;
        assert(s.skip(6) =~= tail);
        assert((u as char) == c);
    } else {
        assert(s.drop_first() =~= tail);
    }
}

/// The text of a string literal reads back: after the opening quote, the escaped text and
/// the closing quote read as the original text, leaving what follows.
pub proof fn lemma_read_text(x: Seq<char>, rest: Seq<char>)
    ensures
        read_text(escape_json_text(x) + ("\""@ + rest)) == Some((x, rest)),
    decreases x.len(),
{
    reveal_strlit("\"");
    if x.len() == 0 {
        assert(escape_json_text(x) + ("\""@ + rest) =~= "\""@ + rest);
        assert(("\""@ + rest).drop_first() =~= rest);
    } else {
        let first = x[0];
        let more = x.drop_first();
        assert(x =~= seq![first] + more);
        crate::output::lemma_escape_concat(seq![first], more);
        let single = seq![first];
        assert(single.drop_last() =~= Seq::<char>::empty());
        assert(escape_json_text(single) == escape_json_text(single.drop_last()) + escape_char(first));
        assert(escape_json_text(single) =~= escape_char(first));
        lemma_read_text(more, rest);
        lemma_read_escaped_char(first, escape_json_text(more) + ("\""@ + rest));
        assert(escape_json_text(x) + ("\""@ + rest) =~= escape_char(first) + (escape_json_text(more) + ("\""@ + rest)));
        assert(seq![first] + more =~= x);
    }
}

/// A string literal after whitespace reads as its text.
pub proof fn lemma_read_quoted(w: Seq<char>, x: Seq<char>, rest: Seq<char>, fuel: nat)
    requires
        all_space(w),
        fuel >= 1,
    ensures
        read_value(w + (quoted(x) + rest), fuel) == Some((JsonValue::Text(x), rest)),
{
    reveal(read_value);
    reveal(read_items);
    reveal(read_members);
    reveal_strlit("\"");
    let s = quoted(x) + rest;
    lemma_skip_space(w, s);
    assert(s[0] == '"');
    lemma_skip_no_space(s);
    assert(s.drop_first() =~= escape_json_text(x) + ("\""@ + rest));
    lemma_read_text(x, rest);
}

proof fn lemma_digit_run_concat(a: Seq<char>, b: Seq<char>)
    ensures
        digit_run(a) < a.len() ==> digit_run(a + b) == digit_run(a),
        digit_run(a) == a.len() ==> digit_run(a + b) == a.len() + digit_run(b),
    decreases a.len(),
{
    if a.len() == 0 {
        assert(a + b =~= b);
    } else {
        assert((a + b)[0] == a[0]);
        assert((a + b).drop_first() =~= a.drop_first() + b);
        lemma_digit_run_concat(a.drop_first(), b);
    }
}

proof fn lemma_digit_run_bound(a: Seq<char>)
    ensures
        digit_run(a) <= a.len(),
        forall|i: int| 0 <= i < digit_run(a) ==> is_json_digit(#[trigger] a[i]),
        digit_run(a) < a.len() ==> !is_json_digit(a[digit_run(a) as int]),
    decreases a.len(),
{
    if a.len() > 0 {
        lemma_digit_run_bound(a.drop_first());
        if is_json_digit(a[0]) {
            assert forall|i: int| 0 <= i < digit_run(a) implies is_json_digit(#[trigger] a[i]) by {
                if i > 0 {
                    assert(a[i] == a.drop_first()[i - 1]);
                }
            }
        }
    }
}

/// The text of a JSON number as the report writes them: digits, optionally followed by a
/// fraction.
pub open spec fn number_text(n: Seq<char>) -> bool {
    let k = digit_run(n);
    &&& k >= 1
    &&& (k == n.len() || (n[k as int] == '.' && k + 1 < n.len() && digit_run(n.skip(k + 1 as int)) == n.len() - k
        - 1))
}

/// A number after whitespace reads as its text, when what follows it does not continue it.
pub proof fn lemma_read_number(w: Seq<char>, n: Seq<char>, rest: Seq<char>, fuel: nat)
    requires
        all_space(w),
        fuel >= 1,
        number_text(n),
        rest.len() > 0,
        !is_json_digit(rest[0]),
        rest[0] != '.',
        rest[0] != '"' && rest[0] != '[' && rest[0] != '{',
    ensures
        read_value(w + (n + rest), fuel) == Some((JsonValue::Number(n), rest)),
{
    reveal(read_value);
    reveal(read_items);
    reveal(read_members);
    let s = n + rest;
    lemma_skip_space(w, s);
    let k = digit_run(n);
    assert(s[0] == n[0]);
    lemma_digit_run_bound(n);
    assert(is_json_digit(n[0]));
    lemma_skip_no_space(s);
    lemma_digit_run_concat(n, rest);
    if k == n.len() {
        assert(rest =~= rest.take(0) + rest);
        assert(digit_run(rest) == 0);
        assert(s[k as int] == rest[0]);
        assert(s.take(k as int) =~= n);
        assert(s.skip(k as int) =~= rest);
    } else {
        assert(s[k as int] == '.');
        let f = n.skip(k + 1 as int);
        assert(s.skip(k + 1 as int) =~= f + rest);
        lemma_digit_run_concat(f, rest);
        assert(digit_run(rest) == 0);
        assert(s.take(n.len() as int) =~= n);
        assert(s.skip(n.len() as int) =~= rest);
    }
}


/// The text values of `items`.
pub open spec fn text_values(items: Seq<Seq<char>>) -> Seq<JsonValue> {
    items.map_values(|x: Seq<char>| JsonValue::Text(x))
}

proof fn lemma_join_front(a: Seq<char>, t: Seq<Seq<char>>, sep: Seq<char>)
    ensures
        join(seq![a] + t, sep) == if t.len() == 0 {
            a
        } else {
            a + (sep + join(t, sep))
        },
    decreases t.len(),
{
    let s = seq![a] + t;
    if t.len() == 0 {
        assert(s =~= seq![a]);
    } else {
        assert(s.drop_last() =~= seq![a] + t.drop_last());
        assert(s.last() == t.last());
        lemma_join_front(a, t.drop_last(), sep);
        if t.len() == 1 {
            assert(t.drop_last() =~= Seq::<Seq<char>>::empty());
            assert(join(t, sep) == t[0]);
            assert(join(s, sep) =~= a + (sep + join(t, sep)));
        } else {
            assert(join(t, sep) == join(t.drop_last(), sep) + sep + t.last());
            assert(join(s, sep) =~= a + (sep + join(t, sep)));
        }
    }
}

proof fn lemma_read_string_items(w: Seq<char>, items: Seq<Seq<char>>, done: Seq<JsonValue>, rest: Seq<char>, fuel: nat)
    requires
        all_space(w),
        items.len() >= 1,
        fuel >= items.len() + 1,
    ensures
        read_items(w + (join(quoted_all(items), ", "@) + ("]"@ + rest)), done, fuel) == Some(
            (JsonValue::List(done + text_values(items)), rest),
        ),
    decreases items.len(),
{
    reveal(read_value);
    reveal(read_items);
    reveal(read_members);
    reveal_strlit("]");
    reveal_strlit(", ");
    let x0 = items[0];
    let more = items.drop_first();
    assert(items =~= seq![x0] + more);
    assert(quoted_all(items) =~= seq![quoted(x0)] + quoted_all(more));
    lemma_join_front(quoted(x0), quoted_all(more), ", "@);
    let s = w + (join(quoted_all(items), ", "@) + ("]"@ + rest));
    if more.len() == 0 {
        let tail = "]"@ + rest;
        assert(s =~= w + (quoted(x0) + tail));
        lemma_read_quoted(w, x0, tail, (fuel - 1) as nat);
        assert(tail[0] == ']');
        lemma_skip_no_space(tail);
        assert(tail.drop_first() =~= rest);
        assert(done.push(JsonValue::Text(x0)) =~= done + text_values(items));
    } else {
        let inner = join(quoted_all(more), ", "@) + ("]"@ + rest);
        let tail = ", "@ + inner;
        assert(s =~= w + (quoted(x0) + tail));
        lemma_read_quoted(w, x0, tail, (fuel - 1) as nat);
        assert(tail[0] == ',');
        lemma_skip_no_space(tail);
        let space = seq![' '];
        assert(tail.drop_first() =~= space + inner);
        assert(all_space(space));
        lemma_read_string_items(space, more, done.push(JsonValue::Text(x0)), rest, (fuel - 1) as nat);
        assert(done.push(JsonValue::Text(x0)) + text_values(more) =~= done + text_values(items));
    }
}

/// A list of strings as `json_list` writes it reads back as the list of those texts.
pub proof fn lemma_read_string_list(w: Seq<char>, items: Seq<Seq<char>>, rest: Seq<char>, fuel: nat)
    requires
        all_space(w),
        fuel >= items.len() + 2,
    ensures
        read_value(w + (json_list(items) + rest), fuel) == Some((JsonValue::List(text_values(items)), rest)),
{
    reveal(read_value);
    reveal(read_items);
    reveal(read_members);
    reveal_strlit("[");
    reveal_strlit("]");
    let body = join(quoted_all(items), ", "@) + ("]"@ + rest);
    let s = "["@ + body;
    assert(json_list(items) + rest =~= s);
    lemma_skip_space(w, s);
    lemma_skip_no_space(s);
    assert(s.drop_first() =~= body);
    if items.len() == 0 {
        assert(join(quoted_all(items), ", "@) == Seq::<char>::empty());
        assert(body =~= "]"@ + rest);
        lemma_skip_no_space(body);
        assert(body.drop_first() =~= rest);
        assert(text_values(items) =~= Seq::<JsonValue>::empty());
    } else {
        let x0 = items[0];
        assert(items =~= seq![x0] + items.drop_first());
        assert(quoted_all(items) =~= seq![quoted(x0)] + quoted_all(items.drop_first()));
        lemma_join_front(quoted(x0), quoted_all(items.drop_first()), ", "@);
        reveal_strlit("\"");
        assert(body[0] == '"');
        lemma_skip_no_space(body);
        assert(all_space(Seq::<char>::empty()));
        assert(Seq::<char>::empty() + body =~= body);
        lemma_read_string_items(Seq::<char>::empty(), items, seq![], rest, (fuel - 1) as nat);
        assert(Seq::<JsonValue>::empty() + text_values(items) =~= text_values(items));
    }
}


/// A number written by `decimal` is the text of a JSON number.
pub proof fn lemma_decimal_number_text(n: nat)
    ensures
        number_text(decimal(n)),
{
    lemma_decimal_digits(n);
    let d = decimal(n);
    lemma_all_digits_run(d);
}

proof fn lemma_all_digits_run(d: Seq<char>)
    requires
        all_digits(d),
    ensures
        digit_run(d) == d.len(),
    decreases d.len(),
{
    if d.len() > 0 {
        assert(is_digit(d[0]));
        assert forall|i: int| 0 <= i < d.drop_first().len() implies is_digit(#[trigger] d.drop_first()[i]) by {
            assert(d.drop_first()[i] == d[i + 1]);
        }
        lemma_all_digits_run(d.drop_first());
    }
}

proof fn lemma_read_member(
    ws: Seq<char>,
    key: Seq<char>,
    vt: Seq<char>,
    v: JsonValue,
    tail: Seq<char>,
    done: Seq<(Seq<char>, JsonValue)>,
    fuel: nat,
)
    requires
        all_space(ws),
        fuel >= 1,
        read_value(" "@ + (vt + tail), (fuel - 1) as nat) == Some((v, tail)),
    ensures
        read_members(member_head(ws, key) + vt + tail, done, fuel) == ({
            let w = skip_space(tail);
            if w.len() > 0 && w[0] == ',' {
                read_members(w.drop_first(), done.push((key, v)), (fuel - 1) as nat)
            } else if w.len() > 0 && w[0] == '}' {
                Some((JsonValue::Object(done.push((key, v))), w.drop_first()))
            } else {
                None
            }
        }),
{
    reveal(read_value);
    reveal(read_items);
    reveal(read_members);
    reveal_strlit("\"");
    reveal_strlit(": ");
    reveal_strlit(" ");
    let r0 = ": "@ + (vt + tail);
    let q = quoted(key);
    let s = member_head(ws, key) + vt + tail;
    assert(s =~= ws + (q + r0));
    lemma_skip_space(ws, q + r0);
    assert((q + r0)[0] == '"');
    lemma_skip_no_space(q + r0);
    assert((q + r0).drop_first() =~= escape_json_text(key) + ("\""@ + r0));
    lemma_read_text(key, r0);
    lemma_skip_no_space(r0);
    assert(r0.drop_first() =~= " "@ + (vt + tail));
}

/// A member followed by a comma: reading goes on with what follows the comma.
proof fn lemma_read_member_next(
    ws: Seq<char>,
    key: Seq<char>,
    vt: Seq<char>,
    v: JsonValue,
    more: Seq<char>,
    done: Seq<(Seq<char>, JsonValue)>,
    fuel: nat,
)
    requires
        all_space(ws),
        fuel >= 1,
        read_value(" "@ + (vt + (","@ + more)), (fuel - 1) as nat) == Some((v, ","@ + more)),
    ensures
        read_members(member_head(ws, key) + vt + (","@ + more), done, fuel) == read_members(
            more,
            done.push((key, v)),
            (fuel - 1) as nat,
        ),
{
    reveal_strlit(",");
    lemma_read_member(ws, key, vt, v, ","@ + more, done, fuel);
    lemma_skip_no_space(","@ + more);
    assert((","@ + more).drop_first() =~= more);
}

/// The last member of an object, before whitespace and the closing brace.
proof fn lemma_read_member_last(
    ws: Seq<char>,
    key: Seq<char>,
    vt: Seq<char>,
    v: JsonValue,
    cws: Seq<char>,
    rest: Seq<char>,
    done: Seq<(Seq<char>, JsonValue)>,
    fuel: nat,
)
    requires
        all_space(ws),
        all_space(cws),
        fuel >= 1,
        read_value(" "@ + (vt + (cws + ("}"@ + rest))), (fuel - 1) as nat) == Some((v, cws + ("}"@ + rest))),
    ensures
        read_members(member_head(ws, key) + vt + (cws + ("}"@ + rest)), done, fuel) == Some(
            (JsonValue::Object(done.push((key, v))), rest),
        ),
{
    reveal_strlit("}");
    lemma_read_member(ws, key, vt, v, cws + ("}"@ + rest), done, fuel);
    lemma_skip_space(cws, "}"@ + rest);
    lemma_skip_no_space("}"@ + rest);
    assert(("}"@ + rest).drop_first() =~= rest);
}


// ---------------------------------------------------------------------------
// The JSON report read back
// ---------------------------------------------------------------------------

/// The JSON value of an audit as the report writes it.
pub open spec fn entry_value(a: RepoAudit) -> JsonValue {
    JsonValue::Object(
        seq![
            ("name"@, JsonValue::Text(a.repo.name@)),
            ("score"@, JsonValue::Number(decimal(a.score as nat))),
            ("status"@, JsonValue::Text(a.status.label())),
            ("missing_required"@, JsonValue::List(text_values(name_texts(a.missing_required@)))),
            ("missing_recommended"@, JsonValue::List(text_values(name_texts(a.missing_recommended@)))),
            ("notes"@, JsonValue::List(text_values(string_texts(a.notes@)))),
        ],
    )
}

/// How many list items the JSON object of an audit holds.
pub open spec fn list_items(a: RepoAudit) -> nat {
    a.missing_required@.len() + a.missing_recommended@.len() + a.notes@.len()
}

proof fn lemma_one_space()
    ensures
        all_space(" "@),
{
    reveal_strlit(" ");
}

/// What follows the opening brace of an audit's object, with `rest` after the object,
/// grouped member by member.
spec fn entry_members(a: RepoAudit, rest: Seq<char>) -> Seq<char> {
    let nl = "\n      "@;
    let m6 = member_head(nl, "notes"@) + json_list(string_texts(a.notes@)) + ("\n    "@ + ("}"@ + rest));
    let m5 = member_head(nl, "missing_recommended"@) + json_list(name_texts(a.missing_recommended@)) + (","@ + m6);
    let m4 = member_head(nl, "missing_required"@) + json_list(name_texts(a.missing_required@)) + (","@ + m5);
    let m3 = member_head(nl, "status"@) + quoted(a.status.label()) + (","@ + m4);
    let m2 = member_head(nl, "score"@) + decimal(a.score as nat) + (","@ + m3);
    member_head(nl, "name"@) + quoted(a.repo.name@) + (","@ + m2)
}

proof fn lemma_regroup_member(x: Seq<char>, h: Seq<char>, v: Seq<char>, t: Seq<char>)
    ensures
        x + h + v + t == x + (h + v + t),
{
    assert(x + h + v + t =~= x + (h + v + t));
}

proof fn lemma_regroup(x: Seq<char>, c: Seq<char>, t: Seq<char>)
    ensures
        x + c + t == x + (c + t),
{
    assert(x + c + t =~= x + (c + t));
}

proof fn lemma_close_split()
    ensures
        "\n    }"@ == "\n    "@ + "}"@,
        "\n}"@ == "\n"@ + "}"@,
{
    reveal_strlit("\n    }");
    reveal_strlit("\n    ");
    reveal_strlit("\n}");
    reveal_strlit("\n");
    reveal_strlit("}");
    assert("\n    }"@ =~= "\n    "@ + "}"@);
    assert("\n}"@ =~= "\n"@ + "}"@);
}

proof fn lemma_entry_members(a: RepoAudit, rest: Seq<char>)
    ensures
        entry_object(a) + rest == "{"@ + entry_members(a, rest),
{
    reveal(entry_object);
    let nl = "\n      "@;
    let c = ","@;
    let h1 = member_head(nl, "name"@);
    let h2 = member_head(nl, "score"@);
    let h3 = member_head(nl, "status"@);
    let h4 = member_head(nl, "missing_required"@);
    let h5 = member_head(nl, "missing_recommended"@);
    let h6 = member_head(nl, "notes"@);
    let v1 = quoted(a.repo.name@);
    let v2 = decimal(a.score as nat);
    let v3 = quoted(a.status.label());
    let v4 = json_list(name_texts(a.missing_required@));
    let v5 = json_list(name_texts(a.missing_recommended@));
    let v6 = json_list(string_texts(a.notes@));
    let a1 = "{"@;
    let a2 = a1 + h1 + v1 + c;
    let a3 = a2 + h2 + v2 + c;
    let a4 = a3 + h3 + v3 + c;
    let a5 = a4 + h4 + v4 + c;
    let a6 = a5 + h5 + v5 + c;
    lemma_close_split();
    let x6 = "\n    "@ + ("}"@ + rest);
    lemma_regroup(a6 + h6 + v6, "\n    }"@, rest);
    assert("\n    }"@ + rest =~= x6);
    lemma_regroup_member(a6, h6, v6, x6);
    let y6 = h6 + v6 + x6;
    lemma_regroup(a5 + h5 + v5, c, y6);
    lemma_regroup_member(a5, h5, v5, c + y6);
    let y5 = h5 + v5 + (c + y6);
    lemma_regroup(a4 + h4 + v4, c, y5);
    lemma_regroup_member(a4, h4, v4, c + y5);
    let y4 = h4 + v4 + (c + y5);
    lemma_regroup(a3 + h3 + v3, c, y4);
    lemma_regroup_member(a3, h3, v3, c + y4);
    let y3 = h3 + v3 + (c + y4);
    lemma_regroup(a2 + h2 + v2, c, y3);
    lemma_regroup_member(a2, h2, v2, c + y3);
    let y2 = h2 + v2 + (c + y3);
    lemma_regroup(a1 + h1 + v1, c, y2);
    lemma_regroup_member(a1, h1, v1, c + y2);
}

/// An object whose first member starts after whitespace: reading it reads its members.
proof fn lemma_read_object(ws: Seq<char>, body: Seq<char>, fuel: nat)
    requires
        all_space(ws),
        fuel >= 1,
        skip_space(body).len() > 0,
        skip_space(body)[0] == '"',
    ensures
        read_value(ws + ("{"@ + body), fuel) == read_members(body, seq![], (fuel - 1) as nat),
{
    reveal(read_value);
    reveal(read_items);
    reveal(read_members);
    reveal_strlit("{");
    let s = "{"@ + body;
    lemma_skip_space(ws, s);
    lemma_skip_no_space(s);
    assert(s.drop_first() =~= body);
}

/// A member's text starts, after its whitespace, with a quote.
proof fn lemma_member_start(ws: Seq<char>, key: Seq<char>, tail: Seq<char>)
    requires
        all_space(ws),
    ensures
        skip_space(member_head(ws, key) + tail).len() > 0,
        skip_space(member_head(ws, key) + tail)[0] == '"',
{
    reveal_strlit("\"");
    let q = quoted(key) + (": "@ + tail);
    assert(member_head(ws, key) + tail =~= ws + q);
    lemma_skip_space(ws, q);
    assert(q[0] == '"');
}

/// The JSON object of an audit reads back as the audit's value.
proof fn lemma_read_entry(ws: Seq<char>, a: RepoAudit, rest: Seq<char>, fuel: nat)
    requires
        all_space(ws),
        fuel >= list_items(a) + 9,
    ensures
        read_value(ws + (entry_object(a) + rest), fuel) == Some((entry_value(a), rest)),
{
    reveal_strlit(",");
    reveal_strlit("\n      ");
    reveal_strlit("\n    ");
    lemma_one_space();
    let nl = "\n      "@;
    let cws = "\n    "@;
    let name = a.repo.name@;
    let required = name_texts(a.missing_required@);
    let recommended = name_texts(a.missing_recommended@);
    let notes = string_texts(a.notes@);
    let m6 = member_head(nl, "notes"@) + json_list(notes) + (cws + ("}"@ + rest));
    let m5 = member_head(nl, "missing_recommended"@) + json_list(recommended) + (","@ + m6);
    let m4 = member_head(nl, "missing_required"@) + json_list(required) + (","@ + m5);
    let m3 = member_head(nl, "status"@) + quoted(a.status.label()) + (","@ + m4);
    let m2 = member_head(nl, "score"@) + decimal(a.score as nat) + (","@ + m3);
    let m1 = member_head(nl, "name"@) + quoted(name) + (","@ + m2);
    lemma_entry_members(a, rest);
    assert(m1 == entry_members(a, rest));
    assert(all_space(nl));
    assert(all_space(cws));
    lemma_member_start(nl, "name"@, quoted(name) + (","@ + m2));
    assert(member_head(nl, "name"@) + (quoted(name) + (","@ + m2)) =~= m1);
    lemma_read_object(ws, m1, fuel);
    let f = (fuel - 1) as nat;
    let p1 = ("name"@, JsonValue::Text(name));
    let p2 = ("score"@, JsonValue::Number(decimal(a.score as nat)));
    let p3 = ("status"@, JsonValue::Text(a.status.label()));
    let p4 = ("missing_required"@, JsonValue::List(text_values(required)));
    let p5 = ("missing_recommended"@, JsonValue::List(text_values(recommended)));
    let p6 = ("notes"@, JsonValue::List(text_values(notes)));
    let d0 = Seq::<(Seq<char>, JsonValue)>::empty();
    lemma_read_quoted(" "@, name, ","@ + m2, (f - 1) as nat);
    lemma_read_member_next(nl, "name"@, quoted(name), p1.1, m2, d0, f);
    lemma_decimal_number_text(a.score as nat);
    lemma_read_number(" "@, decimal(a.score as nat), ","@ + m3, (f - 2) as nat);
    lemma_read_member_next(nl, "score"@, decimal(a.score as nat), p2.1, m3, d0.push(p1), (f - 1) as nat);
    lemma_read_quoted(" "@, a.status.label(), ","@ + m4, (f - 3) as nat);
    lemma_read_member_next(nl, "status"@, quoted(a.status.label()), p3.1, m4, d0.push(p1).push(p2), (f - 2) as nat);
    lemma_read_string_list(" "@, required, ","@ + m5, (f - 4) as nat);
    lemma_read_member_next(
        nl,
        "missing_required"@,
        json_list(required),
        p4.1,
        m5,
        d0.push(p1).push(p2).push(p3),
        (f - 3) as nat,
    );
    lemma_read_string_list(" "@, recommended, ","@ + m6, (f - 5) as nat);
    lemma_read_member_next(
        nl,
        "missing_recommended"@,
        json_list(recommended),
        p5.1,
        m6,
        d0.push(p1).push(p2).push(p3).push(p4),
        (f - 4) as nat,
    );
    lemma_read_string_list(" "@, notes, cws + ("}"@ + rest), (f - 6) as nat);
    lemma_read_member_last(
        nl,
        "notes"@,
        json_list(notes),
        p6.1,
        cws,
        rest,
        d0.push(p1).push(p2).push(p3).push(p4).push(p5),
        (f - 5) as nat,
    );
    assert(d0.push(p1).push(p2).push(p3).push(p4).push(p5).push(p6) =~= seq![p1, p2, p3, p4, p5, p6]);
}

/// The JSON values of the audits.
pub open spec fn entry_values(audits: Seq<RepoAudit>) -> Seq<JsonValue> {
    audits.map_values(|a: RepoAudit| entry_value(a))
}

/// How many list items the JSON objects of the audits hold together.
pub open spec fn total_items(audits: Seq<RepoAudit>) -> nat
    decreases audits.len(),
{
    if audits.len() == 0 {
        0
    } else {
        list_items(audits[0]) + total_items(audits.drop_first())
    }
}

proof fn lemma_entry_object_start(a: RepoAudit)
    ensures
        entry_object(a).len() > 0,
        entry_object(a)[0] == '{',
{
    reveal(entry_object);
    reveal_strlit("{");
}

/// The entries split after the first one.
proof fn lemma_entries_front(s: Seq<RepoAudit>, total: nat)
    requires
        s.len() >= 1,
        total >= 1,
    ensures
        json_entries(s, total) == json_entry(s[0], total == 1) + json_entries(s.drop_first(), (total - 1) as nat),
    decreases s.len(),
{
    let t = s.drop_first();
    if s.len() == 1 {
        assert(s.drop_last() =~= Seq::<RepoAudit>::empty());
        assert(t =~= Seq::<RepoAudit>::empty());
        assert(json_entries(s.drop_last(), total) == Seq::<char>::empty());
        assert(json_entries(t, (total - 1) as nat) == Seq::<char>::empty());
        assert(json_entries(s, total) =~= json_entry(s[0], total == 1) + json_entries(t, (total - 1) as nat));
    } else {
        lemma_entries_front(s.drop_last(), total);
        assert(s.drop_last().drop_first() =~= t.drop_last());
        assert(s.drop_last()[0] == s[0]);
        assert(t.last() == s.last());
        let e0 = json_entry(s[0], total == 1);
        let mid = json_entries(t.drop_last(), (total - 1) as nat);
        let e = json_entry(s.last(), s.len() == total);
        assert(json_entries(t, (total - 1) as nat) == mid + e);
        assert(e0 + mid + e =~= e0 + (mid + e));
    }
}

/// The entries after the line break that follows `[` read as the list of the audits'
/// values, up to the closing bracket.
proof fn lemma_read_entries(s: Seq<RepoAudit>, done: Seq<JsonValue>, rest: Seq<char>, fuel: nat)
    requires
        s.len() >= 1,
        fuel >= s.len() + total_items(s) + 10,
    ensures
        read_items("\n"@ + (json_entries(s, s.len()) + ("  ]"@ + rest)), done, fuel) == Some(
            (JsonValue::List(done + entry_values(s)), rest),
        ),
    decreases s.len(),
{
    reveal(read_value);
    reveal(read_members);
    reveal(read_items);
    reveal_strlit("\n");
    reveal_strlit("    ");
    reveal_strlit(",");
    reveal_strlit("");
    reveal_strlit("  ]");
    reveal_strlit("]");
    reveal_strlit("\n  ");
    let n = s.len();
    let a0 = s[0];
    let t = s.drop_first();
    lemma_entries_front(s, n);
    let last = n == 1;
    let sep = if last {
        ""@
    } else {
        ","@
    };
    let jt = json_entries(t, (n - 1) as nat);
    let rest1 = sep + ("\n"@ + (jt + ("  ]"@ + rest)));
    let ws = "\n"@ + "    "@;
    assert(all_space(ws));
    assert("\n"@ + (json_entries(s, n) + ("  ]"@ + rest)) =~= ws + (entry_object(a0) + rest1));
    lemma_read_entry(ws, a0, rest1, (fuel - 1) as nat);
    let v0 = entry_value(a0);
    let x = "\n"@ + (json_entries(s, n) + ("  ]"@ + rest));
    assert(read_value(x, (fuel - 1) as nat) == Some((v0, rest1)));
    if last {
        assert(t =~= Seq::<RepoAudit>::empty());
        assert(jt == Seq::<char>::empty());
        assert(rest1 =~= "\n  "@ + ("]"@ + rest));
        assert(all_space("\n  "@));
        lemma_skip_space("\n  "@, "]"@ + rest);
        lemma_skip_no_space("]"@ + rest);
        assert(("]"@ + rest).drop_first() =~= rest);
        assert(t =~= Seq::<RepoAudit>::empty());
        assert(skip_space(rest1) == "]"@ + rest);
        assert(skip_space(rest1)[0] == ']');
        assert(done.push(v0) =~= done + entry_values(s));
        assert(read_items(x, done, fuel) == Some((JsonValue::List(done.push(v0)), rest)));
    } else {
        lemma_skip_no_space(rest1);
        assert(rest1.drop_first() =~= "\n"@ + (jt + ("  ]"@ + rest)));
        lemma_read_entries(t, done.push(v0), rest, (fuel - 1) as nat);
        assert(done.push(v0) + entry_values(t) =~= done + entry_values(s));
    }
}

/// The list of entries, after a space, reads as the list of the audits' values.
proof fn lemma_read_entry_list(s: Seq<RepoAudit>, rest: Seq<char>, fuel: nat)
    requires
        fuel >= s.len() + total_items(s) + 11,
    ensures
        read_value(" "@ + ("["@ + ("\n"@ + (json_entries(s, s.len()) + ("  ]"@ + rest)))), fuel) == Some(
            (JsonValue::List(entry_values(s)), rest),
        ),
{
    reveal(read_items);
    reveal(read_members);
    reveal(read_value);
    reveal_strlit("[");
    reveal_strlit("\n");
    reveal_strlit("  ]");
    reveal_strlit("]");
    reveal_strlit("\n  ");
    reveal_strlit("    ");
    lemma_one_space();
    let b = "\n"@ + (json_entries(s, s.len()) + ("  ]"@ + rest));
    let x = "["@ + b;
    lemma_skip_space(" "@, x);
    lemma_skip_no_space(x);
    assert(x.drop_first() =~= b);
    if s.len() == 0 {
        assert(json_entries(s, s.len()) =~= Seq::<char>::empty());
        assert(b =~= "\n  "@ + ("]"@ + rest));
        assert(all_space("\n  "@));
        lemma_skip_space("\n  "@, "]"@ + rest);
        assert(("]"@ + rest).drop_first() =~= rest);
        assert(entry_values(s) =~= Seq::<JsonValue>::empty());
    } else {
        lemma_entries_front(s, s.len());
        let ws = "\n"@ + "    "@;
        assert(all_space(ws));
        let more = entry_object(s[0]) + ((if s.len() == 1 {
            ""@
        } else {
            ","@
        }) + ("\n"@ + (json_entries(s.drop_first(), (s.len() - 1) as nat) + ("  ]"@ + rest))));
        assert(b =~= ws + more);
        lemma_skip_space(ws, more);
        lemma_entry_object_start(s[0]);
        assert(more[0] == '{');
        lemma_read_entries(s, seq![], rest, (fuel - 1) as nat);
        assert(Seq::<JsonValue>::empty() + entry_values(s) =~= entry_values(s));
    }
}

/// The JSON value of the report: its summary fields and the values of the audits.
pub open spec fn report_value(audits: Seq<RepoAudit>, org: Seq<char>, min_score: nat, average: Seq<char>) -> JsonValue {
    JsonValue::Object(
        seq![
            ("organization"@, JsonValue::Text(org)),
            ("repositories_scanned"@, JsonValue::Number(decimal(audits.len()))),
            ("readmes_found"@, JsonValue::Number(decimal(count_with_readme(audits)))),
            ("average_score"@, JsonValue::Number(average)),
            ("below_target"@, JsonValue::Number(decimal(count_below(audits, min_score)))),
            ("repos"@, JsonValue::List(entry_values(audits))),
        ],
    )
}

/// The list of audits as the report writes it, from `[` to `]`.
spec fn repos_text(audits: Seq<RepoAudit>) -> Seq<char> {
    "["@ + "\n"@ + json_entries(audits, audits.len()) + "  ]"@
}

/// What follows the opening brace of the report, grouped member by member.
spec fn report_members(audits: Seq<RepoAudit>, org: Seq<char>, min_score: nat, average: Seq<char>) -> Seq<char> {
    let nl = "\n  "@;
    let m6 = member_head(nl, "repos"@) + repos_text(audits) + ("\n"@ + ("}"@ + "\n"@));
    let m5 = member_head(nl, "below_target"@) + decimal(count_below(audits, min_score)) + (","@ + m6);
    let m4 = member_head(nl, "average_score"@) + average + (","@ + m5);
    let m3 = member_head(nl, "readmes_found"@) + decimal(count_with_readme(audits)) + (","@ + m4);
    let m2 = member_head(nl, "repositories_scanned"@) + decimal(audits.len()) + (","@ + m3);
    member_head(nl, "organization"@) + quoted(org) + (","@ + m2)
}

proof fn lemma_report_members(audits: Seq<RepoAudit>, org: Seq<char>, min_score: nat, average: Seq<char>)
    ensures
        json_report(audits, org, min_score, average) == "{"@ + report_members(audits, org, min_score, average),
{
    reveal(report_object);
    let nl = "\n  "@;
    let c = ","@;
    let h1 = member_head(nl, "organization"@);
    let h2 = member_head(nl, "repositories_scanned"@);
    let h3 = member_head(nl, "readmes_found"@);
    let h4 = member_head(nl, "average_score"@);
    let h5 = member_head(nl, "below_target"@);
    let h6 = member_head(nl, "repos"@);
    let v1 = quoted(org);
    let v2 = decimal(audits.len());
    let v3 = decimal(count_with_readme(audits));
    let v4 = average;
    let v5 = decimal(count_below(audits, min_score));
    let j = json_entries(audits, audits.len());
    let a1 = "{"@;
    let a2 = a1 + h1 + v1 + c;
    let a3 = a2 + h2 + v2 + c;
    let a4 = a3 + h3 + v3 + c;
    let a5 = a4 + h4 + v4 + c;
    let a6 = a5 + h5 + v5 + c;
    lemma_close_split();
    let x6 = "\n"@ + ("}"@ + "\n"@);
    let y6 = h6 + repos_text(audits) + x6;
    assert(a6 + h6 + "["@ + "\n"@ + j + "  ]"@ + "\n}"@ + "\n"@ =~= a6 + y6);
    lemma_regroup(a5 + h5 + v5, c, y6);
    lemma_regroup_member(a5, h5, v5, c + y6);
    let y5 = h5 + v5 + (c + y6);
    lemma_regroup(a4 + h4 + v4, c, y5);
    lemma_regroup_member(a4, h4, v4, c + y5);
    let y4 = h4 + v4 + (c + y5);
    lemma_regroup(a3 + h3 + v3, c, y4);
    lemma_regroup_member(a3, h3, v3, c + y4);
    let y3 = h3 + v3 + (c + y4);
    lemma_regroup(a2 + h2 + v2, c, y3);
    lemma_regroup_member(a2, h2, v2, c + y3);
    let y2 = h2 + v2 + (c + y3);
    lemma_regroup(a1 + h1 + v1, c, y2);
    lemma_regroup_member(a1, h1, v1, c + y2);
}

/// The JSON report reads back: read as JSON, it is the object of its summary fields
/// (organization, repositories scanned, READMEs found, average score, repositories below
/// the target) and of the list of the audits, each with its name, score, status, missing
/// sections and notes; only its final line break follows it. `fuel` bounds how deep and
/// how long the reading may go.
pub proof fn lemma_json_report_reads_back(
    audits: Seq<RepoAudit>,
    org: Seq<char>,
    min_score: nat,
    average: Seq<char>,
    fuel: nat,
)
    requires
        number_text(average),
        fuel >= audits.len() + total_items(audits) + 20,
    ensures
        read_value(json_report(audits, org, min_score, average), fuel) == Some(
            (report_value(audits, org, min_score, average), "\n"@),
        ),
{
    reveal_strlit(",");
    reveal_strlit("\n  ");
    reveal_strlit("\n");
    lemma_one_space();
    let nl = "\n  "@;
    let cws = "\n"@;
    let end = "\n"@;
    let n1 = decimal(audits.len());
    let n2 = decimal(count_with_readme(audits));
    let n3 = decimal(count_below(audits, min_score));
    let m6 = member_head(nl, "repos"@) + repos_text(audits) + (cws + ("}"@ + end));
    let m5 = member_head(nl, "below_target"@) + n3 + (","@ + m6);
    let m4 = member_head(nl, "average_score"@) + average + (","@ + m5);
    let m3 = member_head(nl, "readmes_found"@) + n2 + (","@ + m4);
    let m2 = member_head(nl, "repositories_scanned"@) + n1 + (","@ + m3);
    let m1 = member_head(nl, "organization"@) + quoted(org) + (","@ + m2);
    lemma_report_members(audits, org, min_score, average);
    assert(m1 == report_members(audits, org, min_score, average));
    assert(all_space(nl));
    assert(all_space(cws));
    assert(all_space(Seq::<char>::empty()));
    lemma_member_start(nl, "organization"@, quoted(org) + (","@ + m2));
    assert(member_head(nl, "organization"@) + (quoted(org) + (","@ + m2)) =~= m1);
    assert(Seq::<char>::empty() + ("{"@ + m1) =~= "{"@ + m1);
    lemma_read_object(Seq::<char>::empty(), m1, fuel);
    let f = (fuel - 1) as nat;
    let p1 = ("organization"@, JsonValue::Text(org));
    let p2 = ("repositories_scanned"@, JsonValue::Number(n1));
    let p3 = ("readmes_found"@, JsonValue::Number(n2));
    let p4 = ("average_score"@, JsonValue::Number(average));
    let p5 = ("below_target"@, JsonValue::Number(n3));
    let p6 = ("repos"@, JsonValue::List(entry_values(audits)));
    let d0 = Seq::<(Seq<char>, JsonValue)>::empty();
    lemma_read_quoted(" "@, org, ","@ + m2, (f - 1) as nat);
    lemma_read_member_next(nl, "organization"@, quoted(org), p1.1, m2, d0, f);
    lemma_decimal_number_text(audits.len());
    lemma_read_number(" "@, n1, ","@ + m3, (f - 2) as nat);
    lemma_read_member_next(nl, "repositories_scanned"@, n1, p2.1, m3, d0.push(p1), (f - 1) as nat);
    lemma_decimal_number_text(count_with_readme(audits));
    lemma_read_number(" "@, n2, ","@ + m4, (f - 3) as nat);
    lemma_read_member_next(nl, "readmes_found"@, n2, p3.1, m4, d0.push(p1).push(p2), (f - 2) as nat);
    lemma_read_number(" "@, average, ","@ + m5, (f - 4) as nat);
    lemma_read_member_next(nl, "average_score"@, average, p4.1, m5, d0.push(p1).push(p2).push(p3), (f - 3) as nat);
    lemma_decimal_number_text(count_below(audits, min_score));
    lemma_read_number(" "@, n3, ","@ + m6, (f - 5) as nat);
    lemma_read_member_next(
        nl,
        "below_target"@,
        n3,
        p5.1,
        m6,
        d0.push(p1).push(p2).push(p3).push(p4),
        (f - 4) as nat,
    );
    let tail = cws + ("}"@ + end);
    lemma_read_entry_list(audits, tail, (f - 6) as nat);
    reveal_strlit("[");
    reveal_strlit("  ]");
    assert(" "@ + (repos_text(audits) + tail) =~= " "@ + ("["@ + ("\n"@ + (json_entries(audits, audits.len()) + (
    "  ]"@ + tail)))));
    lemma_read_member_last(
        nl,
        "repos"@,
        repos_text(audits),
        p6.1,
        cws,
        end,
        d0.push(p1).push(p2).push(p3).push(p4).push(p5),
        (f - 5) as nat,
    );
    assert(d0.push(p1).push(p2).push(p3).push(p4).push(p5).push(p6) =~= seq![p1, p2, p3, p4, p5, p6]);
}

/// The JSON report is the JSON text of its summary fields and of the list of the audits,
/// each with its name, score, status, missing sections and notes, whatever the names and
/// notes hold.
pub proof fn lemma_json_report_parses(audits: Seq<RepoAudit>, org: Seq<char>, min_score: nat, average: Seq<char>)
    requires
        number_text(average),
    ensures
        parses_as(json_report(audits, org, min_score, average), report_value(audits, org, min_score, average)),
        parse_json(json_report(audits, org, min_score, average)) == Some(report_value(audits, org, min_score, average)),
{
    let fuel = audits.len() + total_items(audits) + 20;
    lemma_json_report_reads_back(audits, org, min_score, average, fuel);
    reveal_strlit("\n");
    assert(all_space("\n"@));
    let text = json_report(audits, org, min_score, average);
    let value = report_value(audits, org, min_score, average);
    assert(read_value(text, fuel) == Some((value, "\n"@)));
    assert(parses_as(text, value));
    let chosen = choose|v: JsonValue| parses_as(text, v);
    lemma_parses_as_unique(text, chosen, value);
}

/// An escaped text between quotes is the JSON text of that string.
pub proof fn lemma_quoted_parses(value: Seq<char>)
    ensures
        parse_json(quoted(value)) == Some(JsonValue::Text(value)),
{
    let e = Seq::<char>::empty();
    assert(all_space(e));
    lemma_read_quoted(e, value, e, 1);
    assert(e + (quoted(value) + e) =~= quoted(value));
    assert(parses_as(quoted(value), JsonValue::Text(value)));
    let chosen = choose|v: JsonValue| parses_as(quoted(value), v);
    lemma_parses_as_unique(quoted(value), chosen, JsonValue::Text(value));
}

} // verus!
