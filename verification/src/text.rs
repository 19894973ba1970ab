//! Character-level text model shared by the compressors, the bundle format and
//! the answer parsers: whitespace, trimming, case folding, decimal numbers and
//! UTF-8 byte lengths, all stated over `Seq<char>`.
use vstd::prelude::*;

verus! {

/// `String::push` appends one character.
pub assume_specification[ String::push ](string: &mut String, ch: char)
    ensures
        final(string)@ == old(string)@.push(ch),
;

/// Name for the result of `str::to_lowercase` (Unicode lowercase mapping).
pub uninterp spec fn unicode_lowercase(text: Seq<char>) -> Seq<char>;

/// Calls `str::to_lowercase`; the contract only names its result, since the
/// Unicode case tables are not restated here.
#[verifier::external_body]
pub(crate) fn lowercase(text: &str) -> (out: String)
    ensures
        out@ == unicode_lowercase(text@),
{
    text.to_lowercase()
}

/// The characters of a string, in order.
pub fn chars_of(text: &str) -> (out: Vec<char>)
    ensures
        out@ == text@,
{
    let mut out: Vec<char> = Vec::new();
    for ch in it: text.chars()
        invariant
            it.seq() == text@,
            out@ == it.seq().take(it.index() as int),
    {
        out.push(ch);
    }
    out
}

/// A string holding exactly the given characters.
pub fn string_of(chars: &[char]) -> (out: String)
    ensures
        out@ == chars@,
{
    let mut out = String::new();
    let mut i: usize = 0;
    while i < chars.len()
        invariant
            i <= chars.len(),
            out@ == chars@.take(i as int),
        decreases chars.len() - i,
    {
        out.push(chars[i]);
        i += 1;
        assert(chars@.take(i as int) == chars@.take((i - 1) as int).push(chars@[i - 1]));
    }
    assert(chars@.take(chars.len() as int) == chars@);
    out
}

/// A string holding `chars[start..end]`.
pub fn string_of_range(chars: &Vec<char>, start: usize, end: usize) -> (out: String)
    requires
        start <= end <= chars.len(),
    ensures
        out@ == chars@.subrange(start as int, end as int),
{
    let mut out = String::new();
    let mut i: usize = start;
    while i < end
        invariant
            start <= i <= end <= chars.len(),
            out@ == chars@.subrange(start as int, i as int),
        decreases end - i,
    {
        out.push(chars[i]);
        i += 1;
        assert(chars@.subrange(start as int, i as int) == chars@.subrange(
            start as int,
            (i - 1) as int,
        ).push(chars@[i - 1]));
    }
    out
}

/// Appends `chars[start..end]` to `out`.
pub fn push_range(out: &mut Vec<char>, chars: &Vec<char>, start: usize, end: usize)
    requires
        start <= end <= chars.len(),
    ensures
        final(out)@ == old(out)@ + chars@.subrange(start as int, end as int),
{
    let ghost initial = out@;
    let mut i: usize = start;
    while i < end
        invariant
            start <= i <= end <= chars.len(),
            out@ == initial + chars@.subrange(start as int, i as int),
        decreases end - i,
    {
        out.push(chars[i]);
        i += 1;
        assert(chars@.subrange(start as int, i as int) == chars@.subrange(
            start as int,
            (i - 1) as int,
        ).push(chars@[i - 1]));
    }
}

/// Appends all characters of `text` to `out`.
pub fn push_str(out: &mut Vec<char>, text: &str)
    ensures
        final(out)@ == old(out)@ + text@,
{
    let chars = chars_of(text);
    push_range(out, &chars, 0, chars.len());
    assert(chars@.subrange(0, chars@.len() as int) == chars@);
}

/// Unicode `White_Space`, the property that `char::is_whitespace` tests.
pub open spec fn is_ws(c: char) -> bool {
    let v = c as u32;
    ||| 0x09 <= v <= 0x0D
    ||| v == 0x20
    ||| v == 0x85
    ||| v == 0xA0
    ||| v == 0x1680
    ||| 0x2000 <= v <= 0x200A
    ||| v == 0x2028
    ||| v == 0x2029
    ||| v == 0x202F
    ||| v == 0x205F
    ||| v == 0x3000
}

pub fn is_whitespace(c: char) -> (b: bool)
    ensures
        b == is_ws(c),
{
    let v = c as u32;
    (0x09 <= v && v <= 0x0D) || v == 0x20 || v == 0x85 || v == 0xA0 || v == 0x1680 || (0x2000
        <= v && v <= 0x200A) || v == 0x2028 || v == 0x2029 || v == 0x202F || v == 0x205F || v
        == 0x3000
}

/// Every character of `s` is whitespace.
pub open spec fn all_ws(s: Seq<char>) -> bool {
    forall|i: int| 0 <= i < s.len() ==> is_ws(#[trigger] s[i])
}

/// `s` without its leading whitespace (`str::trim_start`).
pub open spec fn trim_start(s: Seq<char>) -> Seq<char>
    decreases s.len(),
{
    if s.len() > 0 && is_ws(s[0]) {
        trim_start(s.drop_first())
    } else {
        s
    }
}

/// `s` without its trailing whitespace (`str::trim_end`).
pub open spec fn trim_end(s: Seq<char>) -> Seq<char>
    decreases s.len(),
{
    if s.len() > 0 && is_ws(s.last()) {
        trim_end(s.drop_last())
    } else {
        s
    }
}

/// `s` without leading and trailing whitespace (`str::trim`).
pub open spec fn trim(s: Seq<char>) -> Seq<char> {
    trim_end(trim_start(s))
}

/// Index of the first non-whitespace character of `s`, or its length.
pub open spec fn first_non_ws(s: Seq<char>) -> int
    decreases s.len(),
{
    if s.len() > 0 && is_ws(s[0]) {
        1 + first_non_ws(s.drop_first())
    } else {
        0
    }
}

/// One past the last non-whitespace character of `s`, or 0.
pub open spec fn last_non_ws_end(s: Seq<char>) -> int
    decreases s.len(),
{
    if s.len() > 0 && is_ws(s.last()) {
        last_non_ws_end(s.drop_last())
    } else {
        s.len() as int
    }
}

pub proof fn lemma_trim_start(s: Seq<char>)
    ensures
        0 <= first_non_ws(s) <= s.len(),
        trim_start(s) == s.subrange(first_non_ws(s), s.len() as int),
        all_ws(s.take(first_non_ws(s))),
        first_non_ws(s) < s.len() ==> !is_ws(s[first_non_ws(s)]),
    decreases s.len(),
{
    if s.len() > 0 && is_ws(s[0]) {
        lemma_trim_start(s.drop_first());
        let k = first_non_ws(s.drop_first());
        assert(s.drop_first().subrange(k, s.len() - 1) == s.subrange(k + 1, s.len() as int));
        assert forall|i: int| 0 <= i < k + 1 implies is_ws(#[trigger] s.take(k + 1)[i]) by {
            if i > 0 {
                assert(s.take(k + 1)[i] == s.drop_first().take(k)[i - 1]);
            }
        }
    } else {
        assert(s.subrange(0, s.len() as int) == s);
    }
}

pub proof fn lemma_trim_end(s: Seq<char>)
    ensures
        0 <= last_non_ws_end(s) <= s.len(),
        trim_end(s) == s.take(last_non_ws_end(s)),
        all_ws(s.subrange(last_non_ws_end(s), s.len() as int)),
        last_non_ws_end(s) > 0 ==> !is_ws(s[last_non_ws_end(s) - 1]),
    decreases s.len(),
{
    if s.len() > 0 && is_ws(s.last()) {
        lemma_trim_end(s.drop_last());
        let k = last_non_ws_end(s.drop_last());
        assert(s.drop_last().take(k) == s.take(k));
        assert forall|i: int|
            0 <= i < s.len() - k implies is_ws(
            #[trigger] s.subrange(k, s.len() as int)[i],
        ) by {
            if i < s.len() - 1 - k {
                assert(s.subrange(k, s.len() as int)[i] == s.drop_last().subrange(
                    k,
                    s.len() - 1,
                )[i]);
            }
        }
    } else {
        assert(s.take(s.len() as int) == s);
    }
}

/// The bounds `(start, end)` of `trim(chars[from..to])` inside `chars`.
pub fn trim_bounds(chars: &Vec<char>, from: usize, to: usize) -> (r: (usize, usize))
    requires
        from <= to <= chars.len(),
    ensures
        from <= r.0 <= r.1 <= to,
        chars@.subrange(r.0 as int, r.1 as int) == trim(chars@.subrange(from as int, to as int)),
{
    let ghost s = chars@.subrange(from as int, to as int);
    proof {
        lemma_trim_start(s);
    }
    let mut start = from;
    while start < to && is_whitespace(chars[start])
        invariant
            from <= start <= to <= chars.len(),
            s == chars@.subrange(from as int, to as int),
            start - from <= first_non_ws(s),
            forall|i: int| from <= i < start ==> is_ws(chars@[i]),
            0 <= first_non_ws(s) <= s.len(),
            first_non_ws(s) < s.len() ==> !is_ws(s[first_non_ws(s)]),
        decreases to - start,
    {
        assert(s[start - from] == chars@[start as int]);
        start += 1;
    }
    assert(start - from == first_non_ws(s)) by {
        if start - from < first_non_ws(s) {
            assert(start < to);
            assert(s.take(first_non_ws(s))[start - from] == chars@[start as int]);
        }
    }
    let ghost t = trim_start(s);
    assert(t == chars@.subrange(start as int, to as int));
    proof {
        lemma_trim_end(t);
    }
    let mut end = to;
    while end > start && is_whitespace(chars[end - 1])
        invariant
            from <= start <= end <= to <= chars.len(),
            t == chars@.subrange(start as int, to as int),
            to - end <= t.len() - last_non_ws_end(t),
            0 <= last_non_ws_end(t) <= t.len(),
            last_non_ws_end(t) > 0 ==> !is_ws(t[last_non_ws_end(t) - 1]),
        decreases end,
    {
        assert(t[end - 1 - start] == chars@[end - 1]);
        end -= 1;
    }
    assert(end - start == last_non_ws_end(t)) by {
        if end - start > last_non_ws_end(t) {
            let k = last_non_ws_end(t);
            assert(t.subrange(k, t.len() as int)[end - 1 - start - k] == chars@[end - 1]);
        }
    }
    assert(chars@.subrange(start as int, end as int) == t.take(end - start));
    (start, end)
}

/// ASCII lowercase of one character (`char::to_ascii_lowercase`).
pub open spec fn ascii_lower(c: char) -> char {
    if 'A' <= c <= 'Z' {
        ((c as u32) + 32) as char
    } else {
        c
    }
}

pub open spec fn ascii_lower_seq(s: Seq<char>) -> Seq<char> {
    s.map_values(|c: char| ascii_lower(c))
}

pub fn ascii_lowercase_char(c: char) -> (r: char)
    ensures
        r == ascii_lower(c),
{
    if 'A' <= c && c <= 'Z' {
        let b: u8 = (c as u32 + 32) as u8;
        let r = b as char;
        assert(r as u32 == c as u32 + 32);
        r
    } else {
        c
    }
}

/// ASCII-lowercased copy of `chars[from..to]`.
pub fn ascii_lowercase_range(chars: &Vec<char>, from: usize, to: usize) -> (out: Vec<char>)
    requires
        from <= to <= chars.len(),
    ensures
        out@ == ascii_lower_seq(chars@.subrange(from as int, to as int)),
{
    let mut out: Vec<char> = Vec::new();
    let mut i = from;
    while i < to
        invariant
            from <= i <= to <= chars.len(),
            out@ == ascii_lower_seq(chars@.subrange(from as int, i as int)),
        decreases to - i,
    {
        let c = ascii_lowercase_char(chars[i]);
        out.push(c);
        i += 1;
        assert(ascii_lower_seq(chars@.subrange(from as int, i as int)) == ascii_lower_seq(
            chars@.subrange(from as int, (i - 1) as int),
        ).push(ascii_lower(chars@[i - 1])));
    }
    out
}

/// `a` equals the literal `b`.
pub fn seq_eq_str(a: &Vec<char>, b: &str) -> (r: bool)
    ensures
        r == (a@ == b@),
{
    let bc = chars_of(b);
    if a.len() != bc.len() {
        return false;
    }
    let mut i: usize = 0;
    while i < a.len()
        invariant
            i <= a.len() == bc.len(),
            bc@ == b@,
            forall|j: int| 0 <= j < i ==> a@[j] == bc@[j],
        decreases a.len() - i,
    {
        if a[i] != bc[i] {
            return false;
        }
        i += 1;
    }
    assert(a@ == bc@);
    true
}

/// Index of the first `c` in `s` at or after `start`, or `s.len()`.
pub open spec fn find_from(s: Seq<char>, start: int, c: char) -> int
    decreases s.len() - start,
{
    if start < 0 || start >= s.len() {
        s.len() as int
    } else if s[start] == c {
        start
    } else {
        find_from(s, start + 1, c)
    }
}

pub proof fn lemma_find_from(s: Seq<char>, start: int, c: char)
    requires
        0 <= start <= s.len(),
    ensures
        start <= find_from(s, start, c) <= s.len(),
        find_from(s, start, c) < s.len() ==> s[find_from(s, start, c)] == c,
        forall|i: int| start <= i < find_from(s, start, c) ==> s[i] != c,
    decreases s.len() - start,
{
    if start < s.len() && s[start] != c {
        lemma_find_from(s, start + 1, c);
    }
}

/// The first `c` in `chars` at or after `start`, or `chars.len()`.
pub fn find_char(chars: &Vec<char>, start: usize, c: char) -> (r: usize)
    requires
        start <= chars.len(),
    ensures
        r == find_from(chars@, start as int, c),
        start <= r <= chars.len(),
        r < chars.len() ==> chars@[r as int] == c,
        forall|i: int| start <= i < r ==> chars@[i] != c,
{
    proof {
        lemma_find_from(chars@, start as int, c);
    }
    let mut j = start;
    while j < chars.len() && chars[j] != c
        invariant
            start <= j <= chars.len(),
            find_from(chars@, start as int, c) == find_from(chars@, j as int, c),
        decreases chars.len() - j,
    {
        j += 1;
    }
    j
}

/// `text[pos..]` begins with `pattern`.
pub open spec fn matches_at(text: Seq<char>, pos: int, pattern: Seq<char>) -> bool {
    0 <= pos && pos + pattern.len() <= text.len() && text.subrange(pos, pos + pattern.len())
        == pattern
}

pub fn matches_at_exec(text: &Vec<char>, pos: usize, pattern: &Vec<char>) -> (r: bool)
    ensures
        r == matches_at(text@, pos as int, pattern@),
{
    if pos > text.len() || pattern.len() > text.len() - pos {
        return false;
    }
    let mut i: usize = 0;
    while i < pattern.len()
        invariant
            i <= pattern.len(),
            pos + pattern.len() <= text.len(),
            forall|j: int| 0 <= j < i ==> text@[pos + j] == pattern@[j],
        decreases pattern.len() - i,
    {
        if text[pos + i] != pattern[i] {
            assert(text@.subrange(pos as int, pos + pattern.len())[i as int] != pattern@[i as int]);
            return false;
        }
        i += 1;
    }
    assert(text@.subrange(pos as int, pos + pattern.len()) == pattern@);
    true
}

/// `text[pos..]` begins with the literal `pattern`.
pub fn matches_str_at(text: &Vec<char>, pos: usize, pattern: &str) -> (r: bool)
    ensures
        r == matches_at(text@, pos as int, pattern@),
{
    let p = chars_of(pattern);
    matches_at_exec(text, pos, &p)
}

/// The decimal digit character for `d < 10`.
pub open spec fn digit_char(d: nat) -> char {
    ((d + 48) as u32) as char
}

pub open spec fn is_digit(c: char) -> bool {
    '0' <= c <= '9'
}

pub open spec fn digit_value(c: char) -> nat {
    ((c as u32) - 48) as nat
}

/// Decimal text of `n`, as `format!("{n}")` writes it.
pub open spec fn decimal(n: nat) -> Seq<char>
    decreases n,
{
    if n < 10 {
        seq![digit_char(n)]
    } else {
        decimal(n / 10).push(digit_char(n % 10))
    }
}

/// The value of a sequence of decimal digits.
pub open spec fn digits_value(s: Seq<char>) -> nat
    decreases s.len(),
{
    if s.len() == 0 {
        0
    } else {
        digits_value(s.drop_last()) * 10 + digit_value(s.last())
    }
}

pub open spec fn all_digits(s: Seq<char>) -> bool {
    forall|i: int| 0 <= i < s.len() ==> is_digit(#[trigger] s[i])
}

/// What `str::parse::<usize>` returns: an optional `+`, then one or more
/// ASCII digits whose value fits in `usize`.
pub open spec fn parse_usize_spec(s: Seq<char>) -> Option<usize> {
    let digits = if s.len() > 0 && s[0] == '+' {
        s.drop_first()
    } else {
        s
    };
    if digits.len() > 0 && all_digits(digits) && digits_value(digits) <= usize::MAX {
        Some(digits_value(digits) as usize)
    } else {
        None
    }
}

fn digit_char_exec(d: usize) -> (c: char)
    requires
        d < 10,
    ensures
        c == digit_char(d as nat),
{
    let b: u8 = (d + 48) as u8;
    let c = b as char;
    assert(c as u32 == d + 48);
    c
}

/// Appends the decimal text of `n` to `out`.
pub fn push_decimal(out: &mut Vec<char>, n: usize)
    ensures
        final(out)@ == old(out)@ + decimal(n as nat),
    decreases n,
{
    if n < 10 {
        out.push(digit_char_exec(n));
        assert(decimal(n as nat) == seq![digit_char(n as nat)]);
    } else {
        push_decimal(out, n / 10);
        out.push(digit_char_exec(n % 10));
    }
}

proof fn lemma_digit_roundtrip(k: nat)
    requires
        k < 10,
    ensures
        digit_value(digit_char(k)) == k,
        is_digit(digit_char(k)),
{
    let c = digit_char(k);
    assert(((k + 48) as u32) as char as u32 == (k + 48) as u32) by {
        vstd::utf8::char_u32_cast(c, c as u32);
    }
}

/// The decimal text of `n` is a nonempty run of digits that reads back as `n`.
pub proof fn lemma_decimal_digits(n: nat)
    ensures
        decimal(n).len() > 0,
        all_digits(decimal(n)),
        decimal(n)[0] != '+',
        digits_value(decimal(n)) == n,
    decreases n,
{
    if n < 10 {
        lemma_digit_roundtrip(n);
        assert(decimal(n).drop_last() == Seq::<char>::empty());
        assert(digits_value(Seq::<char>::empty()) == 0);
    } else {
        lemma_decimal_digits(n / 10);
        let d = decimal(n);
        assert(d.drop_last() == decimal(n / 10));
        assert(d.last() == digit_char(n % 10));
        lemma_digit_roundtrip(n % 10);
        assert(n == (n / 10) * 10 + n % 10);
        assert(digits_value(d) == digits_value(d.drop_last()) * 10 + digit_value(d.last()));
        assert(d[0] == decimal(n / 10)[0]);
        assert forall|i: int| 0 <= i < d.len() implies is_digit(#[trigger] d[i]) by {
            if i < d.len() - 1 {
                assert(d[i] == decimal(n / 10)[i]);
            }
        }
    }
}

/// Reading back the decimal text of `n` gives `n`.
pub proof fn lemma_parse_decimal(n: usize)
    ensures
        parse_usize_spec(decimal(n as nat)) == Some(n),
{
    lemma_decimal_digits(n as nat);
}

/// `str::parse::<usize>` on `chars[from..to]`.
pub fn parse_usize(chars: &Vec<char>, from: usize, to: usize) -> (r: Option<usize>)
    requires
        from <= to <= chars.len(),
    ensures
        r == parse_usize_spec(chars@.subrange(from as int, to as int)),
{
    let ghost s = chars@.subrange(from as int, to as int);
    assert(s.len() > 0 ==> s[0] == chars@[from as int]);
    let start = if from < to && chars[from] == '+' {
        from + 1
    } else {
        from
    };
    let ghost digits = chars@.subrange(start as int, to as int);
    assert(digits == (if s.len() > 0 && s[0] == '+' {
        s.drop_first()
    } else {
        s
    }));
    if start == to {
        assert(digits.len() == 0);
        return None;
    }
    let mut value: usize = 0;
    let mut overflow = false;
    let mut i = start;
    while i < to
        invariant
            from <= start <= i <= to <= chars.len(),
            digits == chars@.subrange(start as int, to as int),
            s == chars@.subrange(from as int, to as int),
            digits == (if s.len() > 0 && s[0] == '+' {
                s.drop_first()
            } else {
                s
            }),
            digits.len() > 0,
            all_digits(chars@.subrange(start as int, i as int)),
            !overflow ==> value == digits_value(chars@.subrange(start as int, i as int)),
            overflow ==> digits_value(chars@.subrange(start as int, i as int)) > usize::MAX,
        decreases to - i,
    {
        let c = chars[i];
        if !('0' <= c && c <= '9') {
            assert(digits[i - start] == c);
            assert(!is_digit(digits[i - start]));
            assert(!all_digits(digits));
            return None;
        }
        let ghost prev = chars@.subrange(start as int, i as int);
        let ghost next = chars@.subrange(start as int, (i + 1) as int);
        assert(next.drop_last() == prev);
        assert(next.last() == c);
        let d = (c as u32 - 48) as usize;
        if !overflow {
            if value > (usize::MAX - d) / 10 {
                overflow = true;
                assert(value * 10 + d > usize::MAX) by (nonlinear_arith)
                    requires
                        value > (usize::MAX - d) / 10,
                        d < 10,
                ;
            } else {
                assert(value * 10 + d <= usize::MAX) by (nonlinear_arith)
                    requires
                        value <= (usize::MAX - d) / 10,
                        d < 10,
                ;
                value = value * 10 + d;
            }
        }
        assert forall|j: int| 0 <= j < next.len() implies is_digit(#[trigger] next[j]) by {
            if j < prev.len() {
                assert(next[j] == prev[j]);
            }
        }
        i += 1;
    }
    if overflow {
        None
    } else {
        Some(value)
    }
}

/// Number of bytes in the UTF-8 encoding of `c` (`char::len_utf8`).
pub open spec fn utf8_width(c: char) -> nat {
    let v = c as u32;
    if v <= 0x7F {
        1
    } else if v <= 0x7FF {
        2
    } else if v <= 0xFFFF {
        3
    } else {
        4
    }
}

/// Number of bytes in the UTF-8 encoding of `s`.
pub open spec fn utf8_len(s: Seq<char>) -> nat
    decreases s.len(),
{
    if s.len() == 0 {
        0
    } else {
        utf8_len(s.drop_last()) + utf8_width(s.last())
    }
}

pub fn utf8_width_exec(c: char) -> (w: usize)
    ensures
        w == utf8_width(c),
{
    let v = c as u32;
    if v <= 0x7F {
        1
    } else if v <= 0x7FF {
        2
    } else if v <= 0xFFFF {
        3
    } else {
        4
    }
}

pub proof fn lemma_utf8_len_single(c: char)
    ensures
        utf8_len(seq![c]) == utf8_width(c),
        utf8_len(Seq::<char>::empty()) == 0,
{
    assert(seq![c].drop_last() == Seq::<char>::empty());
    assert(seq![c].last() == c);
    assert(utf8_len(Seq::<char>::empty()) == 0);
}

pub proof fn lemma_utf8_len_concat(a: Seq<char>, b: Seq<char>)
    ensures
        utf8_len(a + b) == utf8_len(a) + utf8_len(b),
    decreases b.len(),
{
    if b.len() > 0 {
        lemma_utf8_len_concat(a, b.drop_last());
        assert((a + b).drop_last() == a + b.drop_last());
    } else {
        assert(a + b == a);
    }
}

pub proof fn lemma_utf8_len_prefix(s: Seq<char>, i: int, j: int)
    requires
        0 <= i <= j <= s.len(),
    ensures
        utf8_len(s.take(i)) <= utf8_len(s.take(j)),
        utf8_len(s.take(j)) == utf8_len(s.take(i)) + utf8_len(s.subrange(i, j)),
{
    lemma_utf8_len_concat(s.take(i), s.subrange(i, j));
    assert(s.take(i) + s.subrange(i, j) == s.take(j));
}

/// The byte length used here is the length of the UTF-8 encoding that `str`
/// stores.
pub proof fn lemma_utf8_len_encoding(s: Seq<char>)
    ensures
        vstd::utf8::encode_utf8(s).len() == utf8_len(s),
    decreases s.len(),
{
    if s.len() > 0 {
        lemma_utf8_len_encoding(s.drop_first());
        lemma_utf8_len_concat(seq![s[0]], s.drop_first());
        assert(seq![s[0]] + s.drop_first() == s);
        assert(seq![s[0]].drop_last() == Seq::<char>::empty());
        vstd::utf8::char_is_scalar(s[0]);
        assert(vstd::utf8::encode_utf8(s) == vstd::utf8::encode_scalar(s[0] as u32)
            + vstd::utf8::encode_utf8(s.drop_first()));
        assert(vstd::utf8::encode_scalar(s[0] as u32).len() == utf8_width(s[0]));
        assert(seq![s[0]].last() == s[0]);
        assert(utf8_len(Seq::<char>::empty()) == 0);
        assert(utf8_len(seq![s[0]]) == utf8_width(s[0]));
    }
}

/// The number of bytes of `text`, which is the length of its UTF-8
/// encoding.
pub fn byte_length(text: &str) -> (n: usize)
    ensures
        n == utf8_len(text@),
{
    let n = text.as_bytes().len();
    proof {
        lemma_utf8_len_encoding(text@);
    }
    n
}

/// UTF-8 byte length of `chars[from..to]`.
pub fn utf8_len_range(chars: &Vec<char>, from: usize, to: usize) -> (n: usize)
    requires
        from <= to <= chars.len(),
        utf8_len(chars@.subrange(from as int, to as int)) <= usize::MAX,
    ensures
        n == utf8_len(chars@.subrange(from as int, to as int)),
{
    let mut n: usize = 0;
    let mut i = from;
    while i < to
        invariant
            from <= i <= to <= chars.len(),
            n == utf8_len(chars@.subrange(from as int, i as int)),
            utf8_len(chars@.subrange(from as int, to as int)) <= usize::MAX,
        decreases to - i,
    {
        proof {
            let s = chars@.subrange(from as int, to as int);
            lemma_utf8_len_prefix(s, i - from, i - from + 1);
            lemma_utf8_len_prefix(s, i - from + 1, to - from);
            assert(s.take(i - from) == chars@.subrange(from as int, i as int));
            assert(s.take(i - from + 1) == chars@.subrange(from as int, i + 1));
            assert(s.take(to - from) == s);
            assert(chars@.subrange(from as int, i + 1).drop_last() == chars@.subrange(
                from as int,
                i as int,
            ));
        }
        n = n + utf8_width_exec(chars[i]);
        i += 1;
    }
    n
}

} // verus!
