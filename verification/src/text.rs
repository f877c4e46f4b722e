//! Character- and byte-level text primitives with their mathematical models.
use vstd::prelude::*;
use vstd::utf8::*;

verus! {

broadcast use vstd::seq_lib::group_seq_properties;

/// `String::push`: appends one character to the end of the string.
#[verifier::external_body]
pub(crate) fn push_char(s: &mut String, c: char)
    ensures
        final(s)@ == old(s)@.push(c),
{
    s.push(c)
}

/// The characters of `s`, in order.
pub fn chars_of(s: &str) -> (out: Vec<char>)
    ensures
        out@ == s@,
{
    let mut out: Vec<char> = Vec::new();
    for c in it: s.chars()
        invariant
            out@ == it.seq().take(it.index() as int),
    {
        out.push(c);
    }
    out
}

/// A string made of the characters `chars[from..to]`.
pub fn string_from_chars(chars: &Vec<char>, from: usize, to: usize) -> (s: String)
    requires
        from <= to <= chars@.len(),
    ensures
        s@ == chars@.subrange(from as int, to as int),
{
    let mut s = String::new();
    let mut i = from;
    while i < to
        invariant
            from <= i <= to <= chars@.len(),
            s@ == chars@.subrange(from as int, i as int),
        decreases to - i,
    {
        push_char(&mut s, chars[i]);
        i = i + 1;
    }
    s
}

/// Two strings hold the same characters exactly when their UTF-8 encodings agree.
proof fn lemma_same_bytes_same_chars(a: Seq<char>, b: Seq<char>)
    ensures
        (encode_utf8(a) == encode_utf8(b)) <==> (a == b),
{
    encode_utf8_decode_utf8(a);
    encode_utf8_decode_utf8(b);
}

/// Whether two strings are equal.
pub fn str_eq(a: &str, b: &str) -> (r: bool)
    ensures
        r == (a@ == b@),
{
    let x = a.as_bytes();
    let y = b.as_bytes();
    proof {
        lemma_same_bytes_same_chars(a@, b@);
    }
    if x.len() != y.len() {
        return false;
    }
    let mut i: usize = 0;
    while i < x.len()
        invariant
            x@ == encode_utf8(a@),
            y@ == encode_utf8(b@),
            x@.len() == y@.len(),
            i <= x@.len(),
            forall|k: int| 0 <= k < i ==> x@[k] == y@[k],
        decreases x@.len() - i,
    {
        if x[i] != y[i] {
            return false;
        }
        i = i + 1;
    }
    assert(x@ =~= y@);
    true
}

// ---------------------------------------------------------------------------
// Decimal rendering of unsigned integers
// ---------------------------------------------------------------------------

/// The character of a decimal digit.
pub open spec fn digit_char(d: nat) -> char {
    (48 + d) as char
}

/// The decimal digits of `n`, most significant first, without leading zeros
/// (zero itself is the single digit `0`).
pub open spec fn decimal(n: nat) -> Seq<char>
    decreases n,
{
    if n < 10 {
        seq![digit_char(n)]
    } else {
        decimal(n / 10).push(digit_char(n % 10))
    }
}

fn digit_to_char(d: u64) -> (c: char)
    requires
        d < 10,
    ensures
        c == digit_char(d as nat),
{
    if d == 0 { '0' }
    else if d == 1 { '1' }
    else if d == 2 { '2' }
    else if d == 3 { '3' }
    else if d == 4 { '4' }
    else if d == 5 { '5' }
    else if d == 6 { '6' }
    else if d == 7 { '7' }
    else if d == 8 { '8' }
    else { '9' }
}

/// Appends the decimal digits of `n` to `s`.
pub fn push_decimal(s: &mut String, n: u64)
    ensures
        final(s)@ == old(s)@ + decimal(n as nat),
    decreases n,
{
    if n >= 10 {
        push_decimal(s, n / 10);
    }
    push_char(s, digit_to_char(n % 10));
    assert(final(s)@ =~= old(s)@ + decimal(n as nat));
}

/// The decimal text of `n`.
pub fn decimal_string(n: u64) -> (s: String)
    ensures
        s@ == decimal(n as nat),
{
    let mut s = String::new();
    push_decimal(&mut s, n);
    assert(s@ =~= decimal(n as nat));
    s
}


// ---------------------------------------------------------------------------
// ASCII case folding and substring search on UTF-8 bytes
// ---------------------------------------------------------------------------

/// ASCII lowercase of one byte: `A`..`Z` become `a`..`z`, every other byte is kept.
pub open spec fn ascii_lower_byte(b: u8) -> u8 {
    if 65 <= b <= 90 {
        (b + 32) as u8
    } else {
        b
    }
}

/// ASCII lowercase of a byte string, byte by byte.
pub open spec fn ascii_lower(bytes: Seq<u8>) -> Seq<u8> {
    bytes.map_values(|b: u8| ascii_lower_byte(b))
}

/// The UTF-8 bytes of `s` with ASCII letters lowered, as `str::to_ascii_lowercase` gives them.
pub open spec fn lowered_bytes(s: Seq<char>) -> Seq<u8> {
    ascii_lower(encode_utf8(s))
}

/// `pattern` occurs in `text` starting at position `i`.
pub open spec fn occurs_at(text: Seq<u8>, pattern: Seq<u8>, i: int) -> bool {
    &&& 0 <= i
    &&& i + pattern.len() <= text.len()
    &&& text.subrange(i, i + pattern.len()) == pattern
}

/// `pattern` occurs somewhere in `text`.
pub open spec fn contains_bytes(text: Seq<u8>, pattern: Seq<u8>) -> bool {
    exists|i: int| occurs_at(text, pattern, i)
}

/// The ASCII-lowercased copy of a byte slice.
pub fn lower_bytes(bytes: &[u8]) -> (out: Vec<u8>)
    ensures
        out@ == ascii_lower(bytes@),
{
    let mut out: Vec<u8> = Vec::new();
    let mut i: usize = 0;
    while i < bytes.len()
        invariant
            i <= bytes@.len(),
            out@ == ascii_lower(bytes@.take(i as int)),
        decreases bytes@.len() - i,
    {
        let b = bytes[i];
        let l = if 65 <= b && b <= 90 { b + 32 } else { b };
        out.push(l);
        assert(bytes@.take(i + 1) =~= bytes@.take(i as int).push(b));
        assert(out@ =~= ascii_lower(bytes@.take(i + 1)));
        i = i + 1;
    }
    assert(bytes@.take(i as int) =~= bytes@);
    out
}

/// Whether `pattern` occurs at position `i` of `text`.
fn matches_at(text: &[u8], pattern: &[u8], i: usize) -> (r: bool)
    requires
        i + pattern@.len() <= text@.len(),
    ensures
        r == occurs_at(text@, pattern@, i as int),
{
    let n = text.len();
    let mut k: usize = 0;
    while k < pattern.len()
        invariant
            n == text@.len(),
            i + pattern@.len() <= text@.len(),
            k <= pattern@.len(),
            forall|j: int| 0 <= j < k ==> text@[i + j] == pattern@[j],
        decreases pattern@.len() - k,
    {
        assert(i + k < text@.len());
        if text[i + k] != pattern[k] {
            assert(text@.subrange(i as int, i + pattern@.len())[k as int] != pattern@[k as int]);
            return false;
        }
        k = k + 1;
    }
    assert(text@.subrange(i as int, i + pattern@.len()) =~= pattern@);
    true
}

/// Whether `pattern` occurs anywhere in `text`.
pub fn find_bytes(text: &[u8], pattern: &[u8]) -> (r: bool)
    ensures
        r == contains_bytes(text@, pattern@),
{
    if pattern.len() > text.len() {
        assert(!contains_bytes(text@, pattern@));
        return false;
    }
    let last = text.len() - pattern.len();
    let mut i: usize = 0;
    loop
        invariant
            last + pattern@.len() == text@.len(),
            i <= last,
            forall|j: int| 0 <= j < i ==> !occurs_at(text@, pattern@, j),
        decreases last - i,
    {
        if matches_at(text, pattern, i) {
            return true;
        }
        if i == last {
            assert forall|j: int| !occurs_at(text@, pattern@, j) by {
                if 0 <= j <= i {
                }
            }
            return false;
        }
        i = i + 1;
    }
}

// ---------------------------------------------------------------------------
// Markdown headings on UTF-8 bytes
// ---------------------------------------------------------------------------

/// A blank byte: a space or a tab.
pub open spec fn is_blank_byte(b: u8) -> bool {
    b == 32 || b == 9
}

/// The first position at or after `i` whose byte is not blank (the end if there is none).
pub open spec fn skip_blanks(s: Seq<u8>, i: int) -> int
    decreases s.len() - i,
{
    if 0 <= i < s.len() && is_blank_byte(s[i]) {
        skip_blanks(s, i + 1)
    } else {
        i
    }
}

/// The first position at or after `i` whose byte is not `#` (the end if there is none).
pub open spec fn skip_hashes(s: Seq<u8>, i: int) -> int
    decreases s.len() - i,
{
    if 0 <= i < s.len() && s[i] == 35 {
        skip_hashes(s, i + 1)
    } else {
        i
    }
}

/// Position `i` starts a line of `s`: it is the start, or follows a line feed.
pub open spec fn line_start(s: Seq<u8>, i: int) -> bool {
    i == 0 || (0 < i <= s.len() && s[i - 1] == 10)
}

/// The line starting at `i` is a heading that begins with `title`: blanks, one or more
/// `#`, one or more blanks, then `title`.
pub open spec fn heading_at(s: Seq<u8>, i: int, title: Seq<u8>) -> bool {
    let j = skip_blanks(s, i);
    let k = skip_hashes(s, j);
    let m = skip_blanks(s, k);
    &&& j < k
    &&& k < m
    &&& m < s.len()
    &&& occurs_at(s, title, m)
}

/// Some line of `s` is a heading that begins with `title`.
pub open spec fn has_heading(s: Seq<u8>, title: Seq<u8>) -> bool {
    exists|i: int| 0 <= i <= s.len() && line_start(s, i) && #[trigger] heading_at(s, i, title)
}

/// The line starting at `i` begins, after blanks, with `#`.
pub open spec fn heading_line_at(s: Seq<u8>, i: int) -> bool {
    skip_blanks(s, i) < s.len() && s[skip_blanks(s, i)] == 35
}

/// No line of `s` begins, after blanks, with `#`.
pub open spec fn no_heading_line(s: Seq<u8>) -> bool {
    forall|i: int| 0 <= i <= s.len() && line_start(s, i) ==> !#[trigger] heading_line_at(s, i)
}

proof fn lemma_skip_blanks_shift(x: Seq<u8>, t: Seq<u8>, y: Seq<u8>, i: int)
    requires
        0 <= i,
        skip_blanks(t, i) < t.len(),
    ensures
        i <= skip_blanks(t, i),
        skip_blanks(x + t + y, x.len() + i) == x.len() + skip_blanks(t, i),
    decreases t.len() - i,
{
    if i < t.len() {
        assert((x + t + y)[x.len() + i] == t[i]);
        if is_blank_byte(t[i]) {
            lemma_skip_blanks_shift(x, t, y, i + 1);
        }
    }
}

proof fn lemma_skip_hashes_shift(x: Seq<u8>, t: Seq<u8>, y: Seq<u8>, i: int)
    requires
        0 <= i,
        skip_hashes(t, i) < t.len(),
    ensures
        i <= skip_hashes(t, i),
        skip_hashes(x + t + y, x.len() + i) == x.len() + skip_hashes(t, i),
    decreases t.len() - i,
{
    if i < t.len() {
        assert((x + t + y)[x.len() + i] == t[i]);
        if t[i] == 35 {
            lemma_skip_hashes_shift(x, t, y, i + 1);
        }
    }
}

/// A heading line stays one in a longer text, when what comes before it ends a line.
pub(crate) proof fn lemma_heading_in_context(x: Seq<u8>, t: Seq<u8>, y: Seq<u8>, title: Seq<u8>)
    requires
        has_heading(t, title),
        x.len() == 0 || x.last() == 10,
    ensures
        has_heading(x + t + y, title),
{
    let i = choose|i: int| 0 <= i <= t.len() && line_start(t, i) && #[trigger] heading_at(t, i, title);
    let w = x + t + y;
    let o = x.len() as int;
    let j = skip_blanks(t, i);
    let k = skip_hashes(t, j);
    let m = skip_blanks(t, k);
    lemma_skip_blanks_shift(x, t, y, i);
    lemma_skip_hashes_shift(x, t, y, j);
    lemma_skip_blanks_shift(x, t, y, k);
    assert(w.subrange(o + m, o + m + title.len()) =~= t.subrange(m, m + title.len()));
    if i == 0 {
        if o > 0 {
            assert(w[o - 1] == x.last());
        }
    } else {
        assert(w[o + i - 1] == t[i - 1]);
    }
    assert(heading_at(w, o + i, title));
}

/// Skipping over a run of blanks.
pub(crate) proof fn lemma_skip_blank_run(s: Seq<u8>, i: int, n: nat)
    requires
        0 <= i,
        i + n <= s.len(),
        forall|q: int| i <= q < i + n ==> is_blank_byte(#[trigger] s[q]),
    ensures
        skip_blanks(s, i) == skip_blanks(s, i + n),
    decreases n,
{
    if n > 0 {
        lemma_skip_blank_run(s, i + 1, (n - 1) as nat);
    }
}

/// Skipping over a run of `#`.
pub(crate) proof fn lemma_skip_hash_run(s: Seq<u8>, i: int, n: nat)
    requires
        0 <= i,
        i + n <= s.len(),
        forall|q: int| i <= q < i + n ==> #[trigger] s[q] == 35,
    ensures
        skip_hashes(s, i) == skip_hashes(s, i + n),
    decreases n,
{
    if n > 0 {
        lemma_skip_hash_run(s, i + 1, (n - 1) as nat);
    }
}

/// An ASCII character is encoded as its own byte.
pub(crate) proof fn lemma_encode_ascii(c: char)
    requires
        (c as u32) <= 0x7F,
    ensures
        encode_scalar(c as u32).len() == 1,
        encode_scalar(c as u32)[0] as u32 == c as u32,
{
    let v = c as u32;
    assert(((v & 0x7F) as u8) as u32 == v) by (bit_vector)
        requires
            v <= 0x7F,
    ;
}

proof fn lemma_encode_ascii_run(n: nat, c: char, b: u8)
    requires
        b as u32 == c as u32,
        b < 128,
    ensures
        encode_utf8(Seq::new(n, |k: int| c)) == Seq::new(n, |k: int| b),
    decreases n,
{
    let s = Seq::new(n, |k: int| c);
    if n > 0 {
        lemma_encode_ascii_run((n - 1) as nat, c, b);
        lemma_encode_ascii(c);
        assert(s.drop_first() =~= Seq::new((n - 1) as nat, |k: int| c));
        assert(encode_utf8(s) == encode_scalar(c as u32) + encode_utf8(s.drop_first()));
        assert(encode_utf8(s) =~= Seq::new(n, |k: int| b));
    } else {
        assert(encode_utf8(s) =~= Seq::new(n, |k: int| b));
    }
}

/// `n` copies of an ASCII character below `A`, as lowered bytes: `n` copies of its byte.
pub(crate) proof fn lemma_lowered_ascii_run(n: nat, c: char, b: u8)
    requires
        b as u32 == c as u32,
        b < 65,
    ensures
        lowered_bytes(Seq::new(n, |k: int| c)) == Seq::new(n, |k: int| b),
{
    lemma_encode_ascii_run(n, c, b);
    assert(ascii_lower(Seq::new(n, |k: int| b)) =~= Seq::new(n, |k: int| b));
}

/// The first lowered byte of a text that starts with a lowercase ASCII letter.
pub(crate) proof fn lemma_first_lowered_byte(s: Seq<char>)
    requires
        s.len() > 0,
        97 <= (s[0] as u32) <= 122,
    ensures
        lowered_bytes(s).len() > 0,
        lowered_bytes(s)[0] as u32 == s[0] as u32,
        97 <= lowered_bytes(s)[0] <= 122,
{
    lemma_encode_ascii(s[0]);
    assert(encode_utf8(s) == encode_scalar(s[0] as u32) + encode_utf8(s.drop_first()));
    assert(encode_utf8(s)[0] == encode_scalar(s[0] as u32)[0]);
}

fn skip_blank_bytes(text: &[u8], i: usize) -> (j: usize)
    requires
        i <= text@.len(),
    ensures
        j == skip_blanks(text@, i as int),
        i <= j <= text@.len(),
{
    let mut j = i;
    while j < text.len() && (text[j] == 32 || text[j] == 9)
        invariant
            i <= j <= text@.len(),
            skip_blanks(text@, j as int) == skip_blanks(text@, i as int),
        decreases text@.len() - j,
    {
        j = j + 1;
    }
    j
}

fn skip_hash_bytes(text: &[u8], i: usize) -> (j: usize)
    requires
        i <= text@.len(),
    ensures
        j == skip_hashes(text@, i as int),
        i <= j <= text@.len(),
{
    let mut j = i;
    while j < text.len() && text[j] == 35
        invariant
            i <= j <= text@.len(),
            skip_hashes(text@, j as int) == skip_hashes(text@, i as int),
        decreases text@.len() - j,
    {
        j = j + 1;
    }
    j
}

/// Whether some line of `text` is a heading that begins with `title`.
pub fn find_heading(text: &[u8], title: &[u8]) -> (r: bool)
    ensures
        r == has_heading(text@, title@),
{
    let n = text.len();
    let mut i: usize = 0;
    while i < n
        invariant
            n == text@.len(),
            i <= n,
            forall|p: int| 0 <= p < i && line_start(text@, p) ==> !#[trigger] heading_at(text@, p, title@),
        decreases n - i,
    {
        if i == 0 || text[i - 1] == 10 {
            let j = skip_blank_bytes(text, i);
            let k = skip_hash_bytes(text, j);
            let m = skip_blank_bytes(text, k);
            if j < k && k < m && m < n && title.len() <= n - m {
                if matches_at(text, title, m) {
                    assert(heading_at(text@, i as int, title@));
                    return true;
                }
            }
        }
        i = i + 1;
    }
    assert(!heading_at(text@, n as int, title@));
    false
}

// ---------------------------------------------------------------------------
// Unicode whitespace and trimming
// ---------------------------------------------------------------------------

/// The characters with the Unicode `White_Space` property, those for which
/// `char::is_whitespace` holds.
pub open spec fn is_whitespace(c: char) -> bool {
    let u = c as u32;
    ||| 0x09 <= u <= 0x0D
    ||| u == 0x20
    ||| u == 0x85
    ||| u == 0xA0
    ||| u == 0x1680
    ||| 0x2000 <= u <= 0x200A
    ||| u == 0x2028
    ||| u == 0x2029
    ||| u == 0x202F
    ||| u == 0x205F
    ||| u == 0x3000
}

/// Whether `c` is Unicode whitespace.
pub fn char_is_whitespace(c: char) -> (r: bool)
    ensures
        r == is_whitespace(c),
{
    let u = c as u32;
    (0x09 <= u && u <= 0x0D) || u == 0x20 || u == 0x85 || u == 0xA0 || u == 0x1680 || (0x2000 <= u
        && u <= 0x200A) || u == 0x2028 || u == 0x2029 || u == 0x202F || u == 0x205F || u == 0x3000
}

/// `s` with its leading whitespace removed.
pub open spec fn trim_start(s: Seq<char>) -> Seq<char>
    decreases s.len(),
{
    if s.len() > 0 && is_whitespace(s[0]) {
        trim_start(s.drop_first())
    } else {
        s
    }
}

/// `s` with its trailing whitespace removed.
pub open spec fn trim_end(s: Seq<char>) -> Seq<char>
    decreases s.len(),
{
    if s.len() > 0 && is_whitespace(s.last()) {
        trim_end(s.drop_last())
    } else {
        s
    }
}

/// `s` with whitespace removed at both ends, as `str::trim` gives it.
pub open spec fn trim(s: Seq<char>) -> Seq<char> {
    trim_end(trim_start(s))
}

/// The bounds `(start, end)` of `chars[from..to]` once trimmed.
pub fn trim_bounds(chars: &Vec<char>, from: usize, to: usize) -> (r: (usize, usize))
    requires
        from <= to <= chars@.len(),
    ensures
        from <= r.0 <= r.1 <= to,
        chars@.subrange(r.0 as int, r.1 as int) == trim(chars@.subrange(from as int, to as int)),
{
    let ghost s = chars@.subrange(from as int, to as int);
    let mut start = from;
    while start < to && char_is_whitespace(chars[start])
        invariant
            from <= start <= to <= chars@.len(),
            trim_start(s) == trim_start(chars@.subrange(start as int, to as int)),
        decreases to - start,
    {
        let ghost cur = chars@.subrange(start as int, to as int);
        assert(cur.drop_first() =~= chars@.subrange(start + 1, to as int));
        start = start + 1;
    }
    let ghost t = chars@.subrange(start as int, to as int);
    assert(trim_start(t) == t);
    let mut end = to;
    while end > start && char_is_whitespace(chars[end - 1])
        invariant
            from <= start <= end <= to <= chars@.len(),
            trim_end(t) == trim_end(chars@.subrange(start as int, end as int)),
        decreases end - start,
    {
        let ghost cur = chars@.subrange(start as int, end as int);
        assert(cur.drop_last() =~= chars@.subrange(start as int, end - 1));
        end = end - 1;
    }
    let ghost u = chars@.subrange(start as int, end as int);
    assert(trim_end(u) == u);
    (start, end)
}

/// Whether `s` holds nothing but whitespace, that is `s.trim().is_empty()`.
pub fn is_blank(s: &str) -> (r: bool)
    ensures
        r == (trim(s@).len() == 0),
{
    let chars = chars_of(s);
    let (a, b) = trim_bounds(&chars, 0, chars.len());
    assert(chars@.subrange(0, chars@.len() as int) =~= s@);
    a == b
}


// ---------------------------------------------------------------------------
// Parsing unsigned decimal integers
// ---------------------------------------------------------------------------

/// An ASCII decimal digit.
pub open spec fn is_digit(c: char) -> bool {
    '0' <= c <= '9'
}

/// Every character of `d` is a decimal digit.
pub open spec fn all_digits(d: Seq<char>) -> bool {
    forall|i: int| 0 <= i < d.len() ==> is_digit(#[trigger] d[i])
}

/// The number that the digit string `d` denotes.
pub open spec fn digits_value(d: Seq<char>) -> nat
    decreases d.len(),
{
    if d.len() == 0 {
        0
    } else {
        digits_value(d.drop_last()) * 10 + ((d.last() as int) - 48) as nat
    }
}

/// The part of `s` that must be digits: `s` without one leading `+`.
pub open spec fn unsigned_digits(s: Seq<char>) -> Seq<char> {
    if s.len() > 0 && s[0] == '+' {
        s.drop_first()
    } else {
        s
    }
}

/// What `str::parse` gives for an unsigned integer type whose largest value is `max`:
/// an optional `+`, then one or more decimal digits, whose value is at most `max`.
pub open spec fn parse_unsigned(s: Seq<char>, max: nat) -> Option<nat> {
    let d = unsigned_digits(s);
    if d.len() > 0 && all_digits(d) && digits_value(d) <= max {
        Some(digits_value(d))
    } else {
        None
    }
}

/// A prefix of a digit string never denotes more than the whole string.
proof fn lemma_digits_value_prefix(d: Seq<char>, k: int)
    requires
        all_digits(d),
        0 <= k <= d.len(),
    ensures
        digits_value(d.take(k)) <= digits_value(d),
    decreases d.len(),
{
    if k < d.len() {
        assert(all_digits(d.drop_last()));
        lemma_digits_value_prefix(d.drop_last(), k);
        assert(d.drop_last().take(k) =~= d.take(k));
        assert(is_digit(d[d.len() - 1]));
    } else {
        assert(d.take(k) =~= d);
    }
}

/// Extending a digit prefix by one digit multiplies its value by ten and adds the digit.
proof fn lemma_digits_step(d: Seq<char>, k: int)
    requires
        0 <= k < d.len(),
        all_digits(d.take(k)),
        is_digit(d[k]),
    ensures
        all_digits(d.take(k + 1)),
        digits_value(d.take(k + 1)) == digits_value(d.take(k)) * 10 + ((d[k] as int) - 48),
{
    assert(d.take(k + 1).drop_last() =~= d.take(k));
    assert(d.take(k + 1).last() == d[k]);
}

/// Parses `s` as an unsigned decimal number no larger than `max`.
pub fn parse_unsigned_str(s: &str, max: usize) -> (r: Option<usize>)
    ensures
        match r {
            Some(v) => parse_unsigned(s@, max as nat) == Some(v as nat),
            None => parse_unsigned(s@, max as nat) is None,
        },
{
    let chars = chars_of(s);
    let n = chars.len();
    let start: usize = if n > 0 && chars[0] == '+' { 1 } else { 0 };
    let ghost d = unsigned_digits(s@);
    assert(d =~= chars@.subrange(start as int, n as int));
    if start == n {
        return None;
    }
    let mut acc: usize = 0;
    let mut i: usize = start;
    while i < n
        invariant
            n == chars@.len(),
            chars@ == s@,
            start <= i <= n,
            d == chars@.subrange(start as int, n as int),
            d == unsigned_digits(s@),
            all_digits(d.take(i - start)),
            acc == digits_value(d.take(i - start)),
            acc <= max,
        decreases n - i,
    {
        let c = chars[i];
        assert(d[i - start] == c);
        if !('0' <= c && c <= '9') {
            assert(!is_digit(d[i - start]));
            assert(!all_digits(d));
            return None;
        }
        let dv = (c as u32 - 48) as usize;
        proof {
            lemma_digits_step(d, (i - start) as int);
        }
        if dv > max || acc > (max - dv) / 10 {
            assert(acc * 10 + dv > max) by (nonlinear_arith)
                requires
                    dv > max || acc > (max - dv) / 10,
                    dv < 10,
            ;
            proof {
                if all_digits(d) {
                    lemma_digits_value_prefix(d, i - start + 1);
                }
            }
            return None;
        }
        assert(acc * 10 + dv <= max) by (nonlinear_arith)
            requires
                acc <= (max - dv) / 10,
                dv <= max,
        ;
        acc = acc * 10 + dv;
        i = i + 1;
    }
    assert(d.take(n - start) =~= d);
    Some(acc)
}


/// The decimal text of a number consists of digits and denotes that number.
pub proof fn lemma_decimal_digits(n: nat)
    ensures
        decimal(n).len() > 0,
        all_digits(decimal(n)),
        digits_value(decimal(n)) == n,
        is_digit(decimal(n)[0]),
    decreases n,
{
    assert((digit_char(n % 10) as int) == 48 + n % 10);
    if n < 10 {
        assert(decimal(n).drop_last() =~= Seq::<char>::empty());
        assert(digits_value(Seq::<char>::empty()) == 0);
        assert(digits_value(decimal(n)) == n);
    } else {
        lemma_decimal_digits(n / 10);
        let d = decimal(n);
        assert(d.drop_last() =~= decimal(n / 10));
        assert(d.last() == digit_char(n % 10));
        assert(digits_value(d) == digits_value(decimal(n / 10)) * 10 + (n % 10));
        assert((n / 10) * 10 + n % 10 == n) by (nonlinear_arith);
        assert(d[0] == decimal(n / 10)[0]);
    }
}

/// Reading back a rendered number gives the number: `parse_unsigned` undoes `decimal`
/// for every value that fits.
pub proof fn lemma_decimal_round_trip(n: nat, max: nat)
    requires
        n <= max,
    ensures
        parse_unsigned(decimal(n), max) == Some(n),
{
    lemma_decimal_digits(n);
}

} // verus!
