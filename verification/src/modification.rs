//! Line modifications applied to bundled files before they are written:
//! the modification file, line spans and line-ending normalization.
use vstd::prelude::*;

use crate::embedder::{
    entries_view, FileEntry, ParsedDocument, SpecDocument, SpecEntry, chars_eq,
    next_line_start, safe_relative_path, safe_relative_path_spec, strip_cr, EmbedError,
    SpecEmbedError,
};
use crate::text::{
    chars_of, find_char, find_from, lemma_find_from, matches_at, matches_str_at, parse_usize,
    parse_usize_spec, push_range, push_str, string_of, string_of_range, trim, trim_bounds,
    trim_start, lemma_trim_start,
};

verus! {

/// A line of a file: its text `[content_start, content_end)` and its line
/// break `[ending_start, ending_end)`, which is empty on a last line without
/// one.
#[derive(Clone, Copy, Debug)]
pub struct LineSpan {
    pub content_start: usize,
    pub content_end: usize,
    pub ending_start: usize,
    pub ending_end: usize,
}

/// `LineSpan` with integer positions.
pub struct SpecSpan {
    pub content_start: int,
    pub content_end: int,
    pub ending_start: int,
    pub ending_end: int,
}

impl View for LineSpan {
    type V = SpecSpan;

    open spec fn view(&self) -> SpecSpan {
        SpecSpan {
            content_start: self.content_start as int,
            content_end: self.content_end as int,
            ending_start: self.ending_start as int,
            ending_end: self.ending_end as int,
        }
    }
}

/// The lines of `c` from position `p` on. A line ends at `\n`; a `\r`
/// before that `\n` belongs to the line break.
pub open spec fn spans_from(c: Seq<char>, p: int) -> Seq<SpecSpan>
    decreases c.len() - p,
{
    if p < 0 || p >= c.len() {
        Seq::empty()
    } else {
        let e = find_from(c, p, '\n');
        proof {
            lemma_find_from(c, p, '\n');
        }
        if e < c.len() {
            let ending_start = if e > p && c[e - 1] == '\r' {
                e - 1
            } else {
                e
            };
            seq![
                SpecSpan {
                    content_start: p,
                    content_end: ending_start,
                    ending_start,
                    ending_end: e + 1,
                },
            ] + spans_from(c, e + 1)
        } else {
            seq![
                SpecSpan {
                    content_start: p,
                    content_end: c.len() as int,
                    ending_start: c.len() as int,
                    ending_end: c.len() as int,
                },
            ]
        }
    }
}

/// The lines of `c`.
pub open spec fn spans_of(c: Seq<char>) -> Seq<SpecSpan> {
    spans_from(c, 0)
}

/// The spans of the lines of `contents`.
pub fn line_spans(contents: &Vec<char>) -> (spans: Vec<LineSpan>)
    ensures
        spans@.map_values(|s: LineSpan| s@) == spans_of(contents@),
{
    let ghost c = contents@;
    let n = contents.len();
    let mut spans: Vec<LineSpan> = Vec::new();
    let mut line_start: usize = 0;
    while line_start < n
        invariant
            c == contents@,
            n == c.len(),
            line_start <= n,
            spans@.map_values(|s: LineSpan| s@) + spans_from(c, line_start as int) == spans_of(c),
        decreases n - line_start,
    {
        let ghost before = spans@.map_values(|s: LineSpan| s@);
        let e = find_char(contents, line_start, '\n');
        if e < n {
            let ending_start = if e > line_start && contents[e - 1] == '\r' {
                e - 1
            } else {
                e
            };
            let span = LineSpan {
                content_start: line_start,
                content_end: ending_start,
                ending_start,
                ending_end: e + 1,
            };
            spans.push(span);
            assert(spans@.map_values(|s: LineSpan| s@) == before.push(span@));
            assert(before.push(span@) + spans_from(c, e + 1) == before + spans_from(
                c,
                line_start as int,
            ));
            line_start = e + 1;
        } else {
            let span = LineSpan {
                content_start: line_start,
                content_end: n,
                ending_start: n,
                ending_end: n,
            };
            spans.push(span);
            assert(spans@.map_values(|s: LineSpan| s@) == before.push(span@));
            assert(spans_from(c, n as int) == Seq::<SpecSpan>::empty());
            assert(before.push(span@) + spans_from(c, n as int) == before + spans_from(
                c,
                line_start as int,
            ));
            line_start = n;
        }
    }
    assert(spans_from(c, n as int) == Seq::<SpecSpan>::empty());
    assert(spans@.map_values(|s: LineSpan| s@) + Seq::<SpecSpan>::empty() == spans@.map_values(
        |s: LineSpan| s@,
    ));
    spans
}

/// `c` holds a `\r\n`.
pub open spec fn has_crlf(c: Seq<char>) -> bool {
    exists|i: int| 0 <= i < c.len() - 1 && c[i] == '\r' && #[trigger] c[i + 1] == '\n'
}

/// The line break used for a replaced last line that has none: `\r\n` when
/// the file uses it anywhere, else `\n`.
pub open spec fn preferred_ending(c: Seq<char>) -> Seq<char> {
    if has_crlf(c) {
        seq!['\r', '\n']
    } else {
        seq!['\n']
    }
}

/// `"\r\n"` when `contents` holds one, else `"\n"`.
pub fn preferred_line_ending(contents: &Vec<char>) -> (r: &'static str)
    ensures
        r@ == preferred_ending(contents@),
{
    let mut i: usize = 0;
    while contents.len() > 0 && i < contents.len() - 1
        invariant
            i <= contents.len(),
            forall|j: int| 0 <= j < i ==> !(contents@[j] == '\r' && #[trigger] contents@[j + 1] == '\n'),
        decreases contents.len() - i,
    {
        if contents[i] == '\r' && contents[i + 1] == '\n' {
            proof {
                reveal_strlit("\r\n");
                assert(contents@[i + 1] == '\n');
            }
            return "\r\n";
        }
        i += 1;
    }
    proof {
        reveal_strlit("\n");
        if has_crlf(contents@) {
            let j = choose|j: int| 0 <= j < contents@.len() - 1 && contents@[j] == '\r' && #[trigger] contents@[j + 1] == '\n';
            assert(j < i);
        }
    }
    "\n"
}

/// `t` with each line break (`\r\n`, `\r` or `\n`) from position `i` on
/// replaced by `ending`.
pub open spec fn normalized_from(t: Seq<char>, i: int, ending: Seq<char>) -> Seq<char>
    decreases t.len() - i,
{
    if i < 0 || i >= t.len() {
        Seq::empty()
    } else if t[i] == '\r' && i + 1 < t.len() && t[i + 1] == '\n' {
        ending + normalized_from(t, i + 2, ending)
    } else if t[i] == '\r' || t[i] == '\n' {
        ending + normalized_from(t, i + 1, ending)
    } else {
        seq![t[i]] + normalized_from(t, i + 1, ending)
    }
}

/// `t` with each line break replaced by `ending`.
pub open spec fn normalized(t: Seq<char>, ending: Seq<char>) -> Seq<char> {
    normalized_from(t, 0, ending)
}

/// Every line break of `r` is `\r\n`: each `\n` follows a `\r` and each
/// `\r` comes before a `\n`.
pub open spec fn crlf_breaks_only(r: Seq<char>) -> bool {
    &&& forall|i: int| 0 <= i < r.len() && #[trigger] r[i] == '\n' ==> i > 0 && r[i - 1] == '\r'
    &&& forall|i: int| 0 <= i < r.len() && #[trigger] r[i] == '\r' ==> i + 1 < r.len() && r[i + 1] == '\n'
}

proof fn lemma_normalized_from_endings(t: Seq<char>, i: int, ending: Seq<char>)
    requires
        0 <= i <= t.len(),
        ending == seq!['\n'] || ending == seq!['\r', '\n'],
    ensures
        ({
            let r = normalized_from(t, i, ending);
            &&& ending == seq!['\n'] ==> no_cr(r)
            &&& ending == seq!['\r', '\n'] ==> crlf_breaks_only(r) && (r.len() > 0 ==> r[0] != '\n')
        }),
    decreases t.len() - i,
{
    if i < t.len() {
        let k = if t[i] == '\r' && i + 1 < t.len() && t[i + 1] == '\n' {
            2int
        } else {
            1int
        };
        lemma_normalized_from_endings(t, i + k, ending);
        let rest = normalized_from(t, i + k, ending);
        let piece = if t[i] == '\r' || t[i] == '\n' {
            ending
        } else {
            seq![t[i]]
        };
        let r = normalized_from(t, i, ending);
        assert(r == piece + rest);
        if ending == seq!['\n'] {
            assert forall|x: int| 0 <= x < r.len() implies r[x] != '\r' by {
                if x < piece.len() {
                    assert(r[x] == piece[x]);
                } else {
                    assert(r[x] == rest[x - piece.len()]);
                }
            }
        } else {
            assert forall|x: int| 0 <= x < r.len() && #[trigger] r[x] == '\n' implies x > 0 && r[x - 1] == '\r' by {
                if x < piece.len() {
                    assert(r[x] == piece[x]);
                } else {
                    assert(r[x] == rest[x - piece.len()]);
                    if x > piece.len() {
                        assert(r[x - 1] == rest[x - 1 - piece.len()]);
                    }
                }
            }
            assert forall|x: int| 0 <= x < r.len() && #[trigger] r[x] == '\r' implies x + 1 < r.len() && r[x + 1] == '\n' by {
                if x < piece.len() {
                    assert(r[x] == piece[x]);
                    assert(r[x + 1] == piece[x + 1]);
                } else {
                    assert(r[x] == rest[x - piece.len()]);
                    assert(r[x + 1] == rest[x + 1 - piece.len()]);
                }
            }
            assert(r[0] == piece[0]);
        }
    }
}

/// Normalizing to `\n` leaves no carriage return, and normalizing to
/// `\r\n` leaves only `\r\n` line breaks: a normalized text never mixes
/// line endings.
pub proof fn lemma_normalized_endings(t: Seq<char>, ending: Seq<char>)
    requires
        ending == seq!['\n'] || ending == seq!['\r', '\n'],
    ensures
        ending == seq!['\n'] ==> no_cr(normalized(t, ending)),
        ending == seq!['\r', '\n'] ==> crlf_breaks_only(normalized(t, ending)),
{
    lemma_normalized_from_endings(t, 0, ending);
}

/// Writes every line break of `contents` (`\r\n`, `\r` or `\n`) as
/// `line_ending`.
pub fn normalize_line_endings(contents: &str, line_ending: &str) -> (r: String)
    ensures
        r@ == normalized(contents@, line_ending@),
{
    let t = chars_of(contents);
    let ending = chars_of(line_ending);
    let n = t.len();
    let mut out: Vec<char> = Vec::new();
    let mut i: usize = 0;
    while i < n
        invariant
            n == t.len(),
            i <= n,
            t@ == contents@,
            ending@ == line_ending@,
            out@ + normalized_from(t@, i as int, ending@) == normalized(t@, ending@),
        decreases n - i,
    {
        let ghost before = out@;
        if t[i] == '\r' && i + 1 < n && t[i + 1] == '\n' {
            push_range(&mut out, &ending, 0, ending.len());
            assert(ending@.subrange(0, ending.len() as int) == ending@);
            assert(before + (ending@ + normalized_from(t@, i + 2, ending@)) == out@ + normalized_from(t@, i + 2, ending@));
            i += 2;
        } else if t[i] == '\r' || t[i] == '\n' {
            push_range(&mut out, &ending, 0, ending.len());
            assert(ending@.subrange(0, ending.len() as int) == ending@);
            assert(before + (ending@ + normalized_from(t@, i + 1, ending@)) == out@ + normalized_from(t@, i + 1, ending@));
            i += 1;
        } else {
            out.push(t[i]);
            assert(before + (seq![t@[i as int]] + normalized_from(t@, i + 1, ending@)) == out@ + normalized_from(t@, i + 1, ending@));
            i += 1;
        }
    }
    assert(normalized_from(t@, n as int, ending@) == Seq::<char>::empty());
    assert(out@ + Seq::<char>::empty() == out@);
    string_of(&out)
}

/// One replacement of a line of a bundled file.
pub struct Modification {
    /// The file, relative to the output folder, with `/` separators.
    pub relative_path: String,
    /// The case-folded key of the file's path.
    pub path_key: String,
    /// The line replaced, counted from 1 in the original file.
    pub line_number: usize,
    /// The replacement, which may hold several lines.
    pub new_content: String,
    /// The line of the modification file where the record starts.
    pub instruction_line: usize,
}

/// `Modification` as characters and numbers.
pub struct SpecModification {
    pub path: Seq<char>,
    pub key: Seq<char>,
    pub line_number: nat,
    pub new_content: Seq<char>,
    pub instruction_line: nat,
}

impl View for Modification {
    type V = SpecModification;

    open spec fn view(&self) -> SpecModification {
        SpecModification {
            path: self.relative_path@,
            key: self.path_key@,
            line_number: self.line_number as nat,
            new_content: self.new_content@,
            instruction_line: self.instruction_line as nat,
        }
    }
}

pub open spec fn modifications_view(m: Seq<Modification>) -> Seq<SpecModification> {
    m.map_values(|x: Modification| x@)
}

/// The first position at or after `start` where `pat` occurs in `s`.
pub open spec fn find_sub_from(s: Seq<char>, start: int, pat: Seq<char>) -> Option<int>
    decreases s.len() + 1 - start,
{
    if start < 0 || start + pat.len() > s.len() {
        None
    } else if matches_at(s, start, pat) {
        Some(start)
    } else {
        find_sub_from(s, start + 1, pat)
    }
}

/// The first position where `pat` occurs in `s` (`str::find`).
pub open spec fn find_sub(s: Seq<char>, pat: Seq<char>) -> Option<int> {
    find_sub_from(s, 0, pat)
}

/// The first position at or after `from` where `pat` occurs in `chars`,
/// counted from `from`.
fn find_str(chars: &Vec<char>, from: usize, pat: &str) -> (r: Option<usize>)
    requires
        from <= chars.len(),
    ensures
        match r {
            Some(i) => find_sub(chars@.skip(from as int), pat@) == Some(i as int) && from + i
                + pat@.len() <= chars.len(),
            None => find_sub(chars@.skip(from as int), pat@) is None,
        },
{
    let ghost t = chars@.skip(from as int);
    let p = chars_of(pat);
    let mut i: usize = 0;
    while p.len() <= chars.len() - from - i
        invariant
            from <= chars.len(),
            i <= chars.len() - from,
            t == chars@.skip(from as int),
            p@ == pat@,
            find_sub_from(t, 0, pat@) == find_sub_from(t, i as int, pat@),
        decreases chars.len() - from - i,
    {
        if matches_str_at(chars, from + i, pat) {
            assert(t.subrange(i as int, i + p.len()) == chars@.subrange(from + i, from + i + p.len()));
            return Some(i);
        }
        if p.len() == 0 {
            assert(chars@.subrange(from + i, from + i) == p@);
            assert(t.subrange(i as int, i + p.len()) == chars@.subrange(from + i, from + i + p.len()));
            return Some(i);
        }
        assert(t.subrange(i as int, i + p.len()) == chars@.subrange(from + i, from + i + p.len()));
        i += 1;
    }
    None
}

/// What `parse_modification_header` returns for a line of a modification
/// file: `None` when the line is not a record `file:<path>,line:<n>,new_content:<text>`.
pub open spec fn record_spec(line: Seq<char>, n: nat) -> Result<
    Option<SpecModification>,
    SpecEmbedError,
> {
    if !matches_at(line, 0, "file:"@) {
        Ok(None)
    } else {
        let record = line.skip(5);
        match find_sub(record, ",line:"@) {
            // A multiline replacement may itself contain a line beginning with
            // "file:". It is only a record when it includes the delimiters.
            None => if find_sub(record, ",new_content:"@) is Some {
                Err(SpecEmbedError::MissingLineField { line: n })
            } else {
                Ok(None)
            },
            Some(i) => {
                let raw_path = record.take(i);
                let rest = record.skip(i + 6);
                match find_sub(rest, ",new_content:"@) {
                    None => Err(SpecEmbedError::MissingContentField { line: n }),
                    Some(k) => {
                        let number = rest.take(k);
                        let content = rest.skip(k + 13);
                        if raw_path.len() == 0 {
                            Err(SpecEmbedError::EmptyTargetPath { line: n })
                        } else {
                            match parse_usize_spec(number) {
                                None => Err(
                                    SpecEmbedError::InvalidLineNumber { line: n, value: number },
                                ),
                                Some(v) => if v == 0 {
                                    Err(SpecEmbedError::LineZero { line: n })
                                } else {
                                    match safe_relative_path_spec(raw_path) {
                                        Err(e) => Err(
                                            SpecEmbedError::TargetPath { line: n, error: e },
                                        ),
                                        Ok((rel, key)) => Ok(
                                            Some(
                                                SpecModification {
                                                    path: rel,
                                                    key,
                                                    line_number: v as nat,
                                                    new_content: content,
                                                    instruction_line: n,
                                                },
                                            ),
                                        ),
                                    }
                                },
                            }
                        }
                    },
                }
            },
        }
    }
}

pub open spec fn option_modification_view(r: Option<Modification>) -> Option<SpecModification> {
    match r {
        Some(m) => Some(m@),
        None => None,
    }
}

/// Reads one line of a modification file: a record, or `None` for a line
/// that continues the previous replacement.
pub fn parse_modification_header(line: &str, instruction_line: usize) -> (r: Result<
    Option<Modification>,
    EmbedError,
>)
    ensures
        match (r, record_spec(line@, instruction_line as nat)) {
            (Ok(m), Ok(sm)) => option_modification_view(m) == sm,
            (Err(e), Err(se)) => e@ == se,
            _ => false,
        },
{
    let chars = chars_of(line);
    let ghost l = chars@;
    proof {
        reveal_strlit("file:");
        reveal_strlit(",line:");
        reveal_strlit(",new_content:");
    }
    if !matches_str_at(&chars, 0, "file:") {
        return Ok(None);
    }
    let ghost record = l.skip(5);
    assert(chars@.skip(5) == record);
    let i = match find_str(&chars, 5, ",line:") {
        Some(i) => i,
        None => {
            if find_str(&chars, 5, ",new_content:").is_some() {
                return Err(EmbedError::MissingLineField { line: instruction_line });
            }
            return Ok(None);
        },
    };
    let rest_start = 5 + i + 6;
    assert(record.skip(i + 6) == l.skip(rest_start as int));
    let k = match find_str(&chars, rest_start, ",new_content:") {
        Some(k) => k,
        None => return Err(EmbedError::MissingContentField { line: instruction_line }),
    };
    assert(record.take(i as int) == l.subrange(5, 5 + i));
    assert(l.skip(rest_start as int).take(k as int) == l.subrange(rest_start as int, rest_start + k));
    assert(l.skip(rest_start as int).skip(k + 13) == l.subrange(rest_start + k + 13, l.len() as int));
    if i == 0 {
        return Err(EmbedError::EmptyTargetPath { line: instruction_line });
    }
    let line_number = match parse_usize(&chars, rest_start, rest_start + k) {
        Some(v) => v,
        None => {
            return Err(
                EmbedError::InvalidLineNumber {
                    line: instruction_line,
                    value: string_of_range(&chars, rest_start, rest_start + k),
                },
            );
        },
    };
    if line_number == 0 {
        return Err(EmbedError::LineZero { line: instruction_line });
    }
    let raw_path = string_of_range(&chars, 5, 5 + i);
    let (relative_path, path_key) = match safe_relative_path(raw_path.as_str()) {
        Ok(pair) => pair,
        Err(error) => return Err(EmbedError::TargetPath { line: instruction_line, error }),
    };
    let new_content = string_of_range(&chars, rest_start + k + 13, chars.len());
    Ok(
        Some(
            Modification {
                relative_path,
                path_key,
                line_number,
                new_content,
                instruction_line,
            },
        ),
    )
}

/// The line of a modification file that starts at `p`, as `str::lines`
/// gives it (without `\n`, and without `\r` before that `\n`) and
/// without one more trailing `\r`.
pub open spec fn modification_line(s: Seq<char>, p: int) -> Seq<char> {
    let e = find_from(s, p, '\n');
    let l = s.subrange(p, e);
    strip_cr(
        if e < s.len() {
            strip_cr(l)
        } else {
            l
        },
    )
}

pub open spec fn with_current(acc: Seq<SpecModification>, current: Option<SpecModification>) -> Seq<
    SpecModification,
> {
    match current {
        Some(m) => acc.push(m),
        None => acc,
    }
}

/// `m` with one more line of replacement text.
pub open spec fn extend_content(m: SpecModification, line: Seq<char>) -> SpecModification {
    SpecModification { new_content: m.new_content + seq!['\n'] + line, ..m }
}

/// A line that is blank or, after leading whitespace, starts with `#`.
pub open spec fn is_comment_or_blank(line: Seq<char>) -> bool {
    trim(line).len() == 0 || (trim_start(line).len() > 0 && trim_start(line)[0] == '#')
}

/// The records of the modification file `s` from position `p` on, after
/// `index` lines, with the record being read in `current` and the finished
/// ones in `acc`.
pub open spec fn modifications_from(
    s: Seq<char>,
    p: int,
    index: nat,
    current: Option<SpecModification>,
    acc: Seq<SpecModification>,
) -> Result<Seq<SpecModification>, SpecEmbedError>
    decreases s.len() - p,
{
    if p < 0 || p >= s.len() {
        let all = with_current(acc, current);
        if all.len() == 0 {
            Err(SpecEmbedError::NoRecords)
        } else {
            Ok(all)
        }
    } else {
        let line = modification_line(s, p);
        let nx = next_line_start(s, p);
        let n = index + 1;
        proof {
            lemma_find_from(s, p, '\n');
        }
        match record_spec(line, n) {
            Err(e) => Err(e),
            Ok(Some(next)) => modifications_from(s, nx, n, Some(next), with_current(acc, current)),
            Ok(None) => match current {
                Some(m) => modifications_from(s, nx, n, Some(extend_content(m, line)), acc),
                None => if !is_comment_or_blank(line) {
                    Err(SpecEmbedError::NotARecord { line: n })
                } else {
                    modifications_from(s, nx, n, None, acc)
                },
            },
        }
    }
}

/// What `parse_modifications` returns for the modification file `s`.
pub open spec fn parse_modifications_spec(s: Seq<char>) -> Result<Seq<SpecModification>, SpecEmbedError> {
    modifications_from(s, 0, 0, None, Seq::empty())
}

/// `t` holds no carriage return.
pub open spec fn no_cr(t: Seq<char>) -> bool {
    forall|i: int| 0 <= i < t.len() ==> t[i] != '\r'
}

/// Every carriage return of `s` starts a `\r\n` line break.
pub open spec fn crs_in_line_breaks(s: Seq<char>) -> bool {
    forall|i: int| 0 <= i < s.len() && #[trigger] s[i] == '\r' ==> i + 1 < s.len() && s[i + 1] == '\n'
}

proof fn lemma_no_cr_skip(t: Seq<char>, a: int)
    requires
        no_cr(t),
        0 <= a <= t.len(),
    ensures
        no_cr(t.skip(a)),
{
    assert forall|i: int| 0 <= i < t.skip(a).len() implies t.skip(a)[i] != '\r' by {
        assert(t.skip(a)[i] == t[a + i]);
    }
}

/// In a text whose carriage returns all start `\r\n`, the lines hold none.
proof fn lemma_line_has_no_cr(s: Seq<char>, p: int)
    requires
        0 <= p < s.len(),
        crs_in_line_breaks(s),
    ensures
        no_cr(modification_line(s, p)),
{
    lemma_find_from(s, p, '\n');
    let e = find_from(s, p, '\n');
    let l = s.subrange(p, e);
    assert forall|i: int| 0 <= i < l.len() && l[i] == '\r' implies i == l.len() - 1 && e < s.len() by {
        assert(l[i] == s[p + i]);
        if i < l.len() - 1 {
            assert(s[p + i + 1] != '\n');
        }
    }
    let l1 = if e < s.len() {
        crate::embedder::strip_cr(l)
    } else {
        l
    };
    assert(no_cr(l1)) by {
        assert forall|i: int| 0 <= i < l1.len() implies l1[i] != '\r' by {
            assert(l1[i] == l[i]);
        }
    }
    let l2 = crate::embedder::strip_cr(l1);
    assert forall|i: int| 0 <= i < l2.len() implies l2[i] != '\r' by {
        assert(l2[i] == l1[i]);
    }
}

/// A record read from a line without carriage returns has none in its
/// replacement.
proof fn lemma_record_has_no_cr(line: Seq<char>, n: nat)
    requires
        no_cr(line),
    ensures
        record_spec(line, n) matches Ok(Some(m)) ==> no_cr(m.new_content),
{
    if matches_at(line, 0, "file:"@) {
        reveal_strlit("file:");
        let record = line.skip(5);
        lemma_no_cr_skip(line, 5);
        if let Some(i) = find_sub(record, ",line:"@) {
            lemma_find_sub_bound(record, 0, ",line:"@);
            reveal_strlit(",line:");
            let rest = record.skip(i + 6);
            lemma_no_cr_skip(record, i + 6);
            if let Some(k) = find_sub(rest, ",new_content:"@) {
                lemma_find_sub_bound(rest, 0, ",new_content:"@);
                reveal_strlit(",new_content:");
                lemma_no_cr_skip(rest, k + 13);
            }
        }
    }
}

proof fn lemma_find_sub_bound(s: Seq<char>, start: int, pat: Seq<char>)
    ensures
        find_sub_from(s, start, pat) matches Some(i) ==> 0 <= i && i + pat.len() <= s.len(),
    decreases s.len() + 1 - start,
{
    if !(start < 0 || start + pat.len() > s.len()) && !matches_at(s, start, pat) {
        lemma_find_sub_bound(s, start + 1, pat);
    }
}

/// Reading on from `p` with carriage-return-free records keeps them so.
proof fn lemma_records_have_no_cr(
    s: Seq<char>,
    p: int,
    index: nat,
    current: Option<SpecModification>,
    acc: Seq<SpecModification>,
)
    requires
        0 <= p,
        crs_in_line_breaks(s),
        forall|k: int| 0 <= k < acc.len() ==> no_cr(#[trigger] acc[k].new_content),
        current matches Some(m) ==> no_cr(m.new_content),
    ensures
        modifications_from(s, p, index, current, acc) matches Ok(ms) ==> forall|k: int|
            0 <= k < ms.len() ==> no_cr(#[trigger] ms[k].new_content),
    decreases s.len() - p,
{
    let all = with_current(acc, current);
    assert forall|k: int| 0 <= k < all.len() implies no_cr(#[trigger] all[k].new_content) by {
        if k < acc.len() {
            assert(all[k] == acc[k]);
        }
    }
    if p < s.len() {
        let line = modification_line(s, p);
        let nx = next_line_start(s, p);
        let n = index + 1;
        lemma_find_from(s, p, '\n');
        lemma_line_has_no_cr(s, p);
        lemma_record_has_no_cr(line, n);
        match record_spec(line, n) {
            Err(_) => {},
            Ok(Some(next)) => {
                lemma_records_have_no_cr(s, nx, n, Some(next), all);
            },
            Ok(None) => match current {
                Some(m) => {
                    let m2 = extend_content(m, line);
                    assert(no_cr(m2.new_content)) by {
                        assert forall|i: int| 0 <= i < m2.new_content.len() implies m2.new_content[i] != '\r' by {
                            if i < m.new_content.len() {
                                assert(m2.new_content[i] == m.new_content[i]);
                            } else if i > m.new_content.len() {
                                assert(m2.new_content[i] == line[i - m.new_content.len() - 1]);
                            }
                        }
                    }
                    lemma_records_have_no_cr(s, nx, n, Some(m2), acc);
                },
                None => {
                    lemma_records_have_no_cr(s, nx, n, None, acc);
                },
            },
        }
    }
}

/// A modification file saved with `\r\n` line breaks reads as one saved
/// with `\n`: when every carriage return of the file starts a `\r\n`, no
/// replacement read from it holds a carriage return.
pub proof fn lemma_crlf_file_gives_no_carriage_returns(s: Seq<char>)
    requires
        crs_in_line_breaks(s),
    ensures
        parse_modifications_spec(s) matches Ok(ms) ==> forall|k: int|
            0 <= k < ms.len() ==> no_cr(#[trigger] ms[k].new_content),
{
    lemma_records_have_no_cr(s, 0, 0, None, Seq::empty());
}

pub open spec fn modifications_result(r: Result<Vec<Modification>, EmbedError>) -> Result<
    Seq<SpecModification>,
    SpecEmbedError,
> {
    match r {
        Ok(v) => Ok(modifications_view(v@)),
        Err(e) => Err(e@),
    }
}

/// Reads a modification file: records `file:<path>,line:<n>,new_content:<text>`,
/// each possibly followed by lines that continue its replacement; before the
/// first record only blank and `#` lines may appear.
pub fn parse_modifications(document: &str) -> (r: Result<Vec<Modification>, EmbedError>)
    ensures
        modifications_result(r) == parse_modifications_spec(document@),
{
    let chars = chars_of(document);
    let ghost s = chars@;
    let n = chars.len();
    let mut modifications: Vec<Modification> = Vec::new();
    let mut current: Option<Modification> = None;
    let mut p: usize = 0;
    let mut index: usize = 0;
    assert(modifications_view(modifications@) == Seq::<SpecModification>::empty());
    while p < n
        invariant
            s == chars@,
            s == document@,
            n == s.len(),
            p <= n,
            index <= p,
            modifications_from(s, p as int, index as nat, option_modification_view(current), modifications_view(modifications@))
                == parse_modifications_spec(s),
        decreases n - p,
    {
        proof {
            lemma_find_from(s, p as int, '\n');
        }
        let e = find_char(&chars, p, '\n');
        let mut end = e;
        if e < n && end > p && chars[end - 1] == '\r' {
            end -= 1;
        }
        if end > p && chars[end - 1] == '\r' {
            end -= 1;
        }
        assert(s.subrange(p as int, end as int) == modification_line(s, p as int));
        let line = string_of_range(&chars, p, end);
        let instruction_line = index + 1;
        let ghost before = modifications_view(modifications@);
        match parse_modification_header(line.as_str(), instruction_line) {
            Err(error) => return Err(error),
            Ok(Some(next)) => {
                match current {
                    Some(previous) => {
                        modifications.push(previous);
                        assert(modifications_view(modifications@) == before.push(previous@));
                    },
                    None => {},
                }
                current = Some(next);
            },
            Ok(None) => {
                match current {
                    Some(mut modification) => {
                        let ghost m0 = modification@;
                        modification.new_content.push('\n');
                        modification.new_content.append(line.as_str());
                        assert(modification.new_content@ =~= m0.new_content + seq!['\n'] + line@);
                        assert(modification@ == extend_content(m0, line@));
                        current = Some(modification);
                    },
                    None => {
                        let (a, b) = trim_bounds(&chars, p, end);
                        proof {
                            lemma_trim_start(s.subrange(p as int, end as int));
                        }
                        let ghost ts = trim_start(s.subrange(p as int, end as int));
                        let blank = a == b;
                        let comment = a < b && chars[a] == '#';
                        proof {
                            if a < b {
                                assert(ts.len() > 0);
                                assert(trim(s.subrange(p as int, end as int)) == crate::text::trim_end(ts));
                                assert(ts[0] == chars@[a as int]) by {
                                    crate::text::lemma_trim_end(ts);
                                    assert(crate::text::trim_end(ts)[0] == ts[0]);
                                }
                            } else {
                                assert(trim(s.subrange(p as int, end as int)).len() == 0);
                            }
                        }
                        if !blank && !comment {
                            return Err(EmbedError::NotARecord { line: instruction_line });
                        }
                    },
                }
            },
        }
        p = if e < n {
            e + 1
        } else {
            n
        };
        index = instruction_line;
    }
    match current {
        Some(last) => {
            let ghost before = modifications_view(modifications@);
            modifications.push(last);
            assert(modifications_view(modifications@) == before.push(last@));
        },
        None => {},
    }
    if modifications.len() == 0 {
        return Err(EmbedError::NoRecords);
    }
    Ok(modifications)
}

pub open spec fn span_ok(c: Seq<char>, sp: SpecSpan) -> bool {
    0 <= sp.content_start <= sp.content_end == sp.ending_start <= sp.ending_end <= c.len()
}

pub proof fn lemma_spans_from_ok(c: Seq<char>, p: int)
    requires
        0 <= p <= c.len(),
    ensures
        forall|k: int| 0 <= k < spans_from(c, p).len() ==> span_ok(c, #[trigger] spans_from(c, p)[k]),
    decreases c.len() - p,
{
    if p < c.len() {
        lemma_find_from(c, p, '\n');
        let e = find_from(c, p, '\n');
        if e < c.len() {
            lemma_spans_from_ok(c, e + 1);
            let ss = spans_from(c, p);
            assert forall|k: int| 0 <= k < ss.len() implies span_ok(c, #[trigger] ss[k]) by {
                if k > 0 {
                    assert(ss[k] == spans_from(c, e + 1)[k - 1]);
                }
            }
        }
    }
}

/// The lines of a text tile it: the first starts where reading starts,
/// each next one where the previous line break ends, and the last line
/// break ends at the end of the text; every line break but the last is
/// `\n` or `\r\n`, and no line text holds `\n`. A text has no lines
/// exactly when it is empty.
pub proof fn lemma_spans_tile(c: Seq<char>, p: int)
    requires
        0 <= p <= c.len(),
    ensures
        ({
            let ss = spans_from(c, p);
            &&& (ss.len() == 0 <==> p == c.len())
            &&& ss.len() > 0 ==> ss[0].content_start == p && ss.last().ending_end == c.len()
            &&& forall|k: int|
                0 <= k < ss.len() - 1 ==> (#[trigger] ss[k]).ending_end == ss[k + 1].content_start
            &&& forall|k: int|
                0 <= k < ss.len() ==> span_ok(c, #[trigger] ss[k]) && ss[k].content_start
                    < ss[k].ending_end
            &&& forall|k: int|
                0 <= k < ss.len() - 1 ==> {
                    let b = c.subrange((#[trigger] ss[k]).ending_start, ss[k].ending_end);
                    b == seq!['\n'] || b == seq!['\r', '\n']
                }
            &&& forall|k: int, i: int|
                #![trigger ss[k], c[i]]
                0 <= k < ss.len() && ss[k].content_start <= i < ss[k].content_end ==> c[i] != '\n'
        }),
    decreases c.len() - p,
{
    if p < c.len() {
        lemma_find_from(c, p, '\n');
        let e = find_from(c, p, '\n');
        let ss = spans_from(c, p);
        if e < c.len() {
            lemma_spans_tile(c, e + 1);
            let rest = spans_from(c, e + 1);
            assert(ss == seq![ss[0]] + rest);
            assert forall|k: int| 0 < k < ss.len() implies #[trigger] ss[k] == rest[k - 1] by {}
            assert forall|k: int| 0 <= k < ss.len() - 1 implies (#[trigger] ss[k]).ending_end
                == ss[k + 1].content_start by {
                if k > 0 {
                    assert(ss[k + 1] == rest[k]);
                }
            }
            assert forall|k: int|
                0 <= k < ss.len() - 1 implies {
                    let b = c.subrange((#[trigger] ss[k]).ending_start, ss[k].ending_end);
                    b == seq!['\n'] || b == seq!['\r', '\n']
                } by {
                if k == 0 {
                    let b = c.subrange(ss[0].ending_start, ss[0].ending_end);
                    if ss[0].ending_start == e {
                        assert(b == seq!['\n']);
                    } else {
                        assert(b == seq!['\r', '\n']);
                    }
                }
            }
        } else {
            assert(ss.len() == 1);
        }
    }
}

/// The keys of the paths of `files[j..]` added to `acc`, or the first
/// refused path.
pub open spec fn file_keys(files: Seq<SpecEntry>, j: int, acc: Seq<Seq<char>>) -> Result<
    Seq<Seq<char>>,
    SpecEmbedError,
>
    decreases files.len() - j,
{
    if j < 0 || j >= files.len() {
        Ok(acc)
    } else {
        match safe_relative_path_spec(files[j].path) {
            Err(e) => Err(SpecEmbedError::Path(e)),
            Ok((_, k)) => file_keys(files, j + 1, acc.push(k)),
        }
    }
}

/// The last index below `n` whose key is `key`.
pub open spec fn last_with_key(keys: Seq<Seq<char>>, key: Seq<char>, n: int) -> Option<int>
    decreases n,
{
    if n <= 0 {
        None
    } else if keys[n - 1] == key {
        Some(n - 1)
    } else {
        last_with_key(keys, key, n - 1)
    }
}

/// An earlier modification targets the same line of the same file.
pub open spec fn duplicate_target(mods: Seq<SpecModification>, entries: Seq<usize>, j: int, e: usize) -> bool {
    exists|i: int| 0 <= i < j && #[trigger] entries[i] == e && mods[i].line_number == mods[j].line_number
}

/// The file targeted by each of `mods[j..]`, added to `entries`, or the first
/// modification for an unknown file or for a line already targeted.
pub open spec fn resolve_targets(
    keys: Seq<Seq<char>>,
    mods: Seq<SpecModification>,
    j: int,
    entries: Seq<usize>,
) -> Result<Seq<usize>, SpecEmbedError>
    decreases mods.len() - j,
{
    if j < 0 || j >= mods.len() {
        Ok(entries)
    } else {
        match last_with_key(keys, mods[j].key, keys.len() as int) {
            None => Err(
                SpecEmbedError::UnknownTarget {
                    line: mods[j].instruction_line,
                    path: mods[j].path,
                },
            ),
            Some(e) => if duplicate_target(mods, entries, j, e as usize) {
                Err(
                    SpecEmbedError::DuplicateTarget {
                        line_number: mods[j].line_number,
                        path: mods[j].path,
                    },
                )
            } else {
                resolve_targets(keys, mods, j + 1, entries.push(e as usize))
            },
        }
    }
}

/// The first of `mods[j..]` that targets a line past the end of its file.
pub open spec fn first_out_of_range(
    files: Seq<SpecEntry>,
    mods: Seq<SpecModification>,
    entries: Seq<usize>,
    j: int,
) -> Option<SpecEmbedError>
    decreases mods.len() - j,
{
    if j < 0 || j >= mods.len() {
        None
    } else {
        let count = spans_of(files[entries[j] as int].contents).len();
        if mods[j].line_number > count {
            Some(
                SpecEmbedError::LineOutOfRange {
                    line: mods[j].instruction_line,
                    line_number: mods[j].line_number,
                    path: mods[j].path,
                    line_count: count,
                },
            )
        } else {
            first_out_of_range(files, mods, entries, j + 1)
        }
    }
}

/// The replacement text for line `line` of file `e`, looking at `mods[j..]`.
pub open spec fn replacement_from(
    mods: Seq<SpecModification>,
    entries: Seq<usize>,
    e: usize,
    line: nat,
    j: int,
) -> Option<Seq<char>>
    decreases mods.len() - j,
{
    if j < 0 || j >= mods.len() {
        None
    } else if entries[j] == e && mods[j].line_number == line {
        Some(mods[j].new_content)
    } else {
        replacement_from(mods, entries, e, line, j + 1)
    }
}

/// The text of line `k` (from 0) of `c` after the modifications of file
/// `e`, with its line break. A replacement takes the line break of the
/// line it replaces, or the file's preferred one on a last line without.
pub open spec fn rewritten_line(
    c: Seq<char>,
    sp: SpecSpan,
    k: int,
    mods: Seq<SpecModification>,
    entries: Seq<usize>,
    e: usize,
) -> Seq<char> {
    let ending = c.subrange(sp.ending_start, sp.ending_end);
    let text = match replacement_from(mods, entries, e, (k + 1) as nat, 0) {
        Some(t) => normalized(
            t,
            if ending.len() > 0 {
                ending
            } else {
                preferred_ending(c)
            },
        ),
        None => c.subrange(sp.content_start, sp.content_end),
    };
    text + ending
}

/// Lines `k..` of `c` after the modifications of file `e`.
pub open spec fn rewritten_from(
    c: Seq<char>,
    spans: Seq<SpecSpan>,
    k: int,
    mods: Seq<SpecModification>,
    entries: Seq<usize>,
    e: usize,
) -> Seq<char>
    decreases spans.len() - k,
{
    if k < 0 || k >= spans.len() {
        Seq::empty()
    } else {
        rewritten_line(c, spans[k], k, mods, entries, e) + rewritten_from(
            c,
            spans,
            k + 1,
            mods,
            entries,
            e,
        )
    }
}

/// The contents `c` of file `e` after its modifications. All line numbers
/// refer to the original contents.
pub open spec fn rewritten(c: Seq<char>, mods: Seq<SpecModification>, entries: Seq<usize>, e: usize) -> Seq<char> {
    rewritten_from(c, spans_of(c), 0, mods, entries, e)
}

/// The files after the modifications: targeted files get rewritten
/// contents, all else stays.
pub open spec fn applied_files(
    files: Seq<SpecEntry>,
    mods: Seq<SpecModification>,
    entries: Seq<usize>,
) -> Seq<SpecEntry> {
    Seq::new(
        files.len(),
        |e: int|
            if entries.contains(e as usize) {
                SpecEntry {
                    path: files[e].path,
                    contents: rewritten(files[e].contents, mods, entries, e as usize),
                }
            } else {
                files[e]
            },
    )
}

/// How many of the first `n` files are targeted.
pub open spec fn count_targeted(entries: Seq<usize>, n: int) -> nat
    decreases n,
{
    if n <= 0 {
        0
    } else {
        count_targeted(entries, n - 1) + if entries.contains((n - 1) as usize) {
            1nat
        } else {
            0nat
        }
    }
}

/// What `apply_modifications` does to `doc`: the modified document, the
/// number of modifications and the number of files modified, or why the
/// modifications were refused.
pub open spec fn apply_spec(doc: SpecDocument, mods: Seq<SpecModification>) -> Result<
    (SpecDocument, nat, nat),
    SpecEmbedError,
> {
    match file_keys(doc.files, 0, Seq::empty()) {
        Err(e) => Err(e),
        Ok(keys) => match resolve_targets(keys, mods, 0, Seq::empty()) {
            Err(e) => Err(e),
            Ok(entries) => match first_out_of_range(doc.files, mods, entries, 0) {
                Some(e) => Err(e),
                None => Ok(
                    (
                        SpecDocument { files: applied_files(doc.files, mods, entries), ..doc },
                        mods.len(),
                        count_targeted(entries, doc.files.len() as int),
                    ),
                ),
            },
        },
    }
}

fn collect_file_keys(files: &Vec<FileEntry>) -> (r: Result<Vec<Vec<char>>, EmbedError>)
    ensures
        match (r, file_keys(entries_view(files@), 0, Seq::empty())) {
            (Ok(keys), Ok(ks)) => crate::order::keys_view(keys@) == ks,
            (Err(e), Err(se)) => e@ == se,
            _ => false,
        },
        r matches Ok(keys) ==> keys.len() == files.len(),
{
    let ghost fs = entries_view(files@);
    let mut keys: Vec<Vec<char>> = Vec::new();
    let mut j: usize = 0;
    assert(crate::order::keys_view(keys@) == Seq::<Seq<char>>::empty());
    while j < files.len()
        invariant
            j <= files.len(),
            keys.len() == j,
            fs == entries_view(files@),
            file_keys(fs, j as int, crate::order::keys_view(keys@)) == file_keys(fs, 0, Seq::empty()),
        decreases files.len() - j,
    {
        let ghost ks = crate::order::keys_view(keys@);
        assert(fs[j as int] == files@[j as int]@);
        let key = match safe_relative_path(files[j].relative_path.as_str()) {
            Ok((_, key)) => chars_of(key.as_str()),
            Err(error) => return Err(EmbedError::Path(error)),
        };
        keys.push(key);
        assert(crate::order::keys_view(keys@) == ks.push(key@));
        j += 1;
    }
    Ok(keys)
}

/// The last index whose key is `key`.
fn last_index_with_key(keys: &Vec<Vec<char>>, key: &Vec<char>) -> (r: Option<usize>)
    ensures
        match (r, last_with_key(crate::order::keys_view(keys@), key@, keys.len() as int)) {
            (Some(i), Some(si)) => i == si && i < keys.len(),
            (None, None) => true,
            _ => false,
        },
{
    let ghost ks = crate::order::keys_view(keys@);
    let mut n = keys.len();
    while n > 0
        invariant
            n <= keys.len(),
            ks == crate::order::keys_view(keys@),
            last_with_key(ks, key@, keys.len() as int) == last_with_key(ks, key@, n as int),
        decreases n,
    {
        assert(ks[n - 1] == keys@[n - 1]@);
        if chars_eq(&keys[n - 1], key) {
            return Some(n - 1);
        }
        n -= 1;
    }
    None
}

/// A modification before `mods[j]` targets the same line of file `e`.
fn has_duplicate_target(mods: &Vec<Modification>, entries: &Vec<usize>, j: usize, e: usize) -> (r: bool)
    requires
        j < mods.len(),
        entries.len() == j,
    ensures
        r == duplicate_target(modifications_view(mods@), entries@, j as int, e),
{
    let ghost ms = modifications_view(mods@);
    assert(ms[j as int] == mods@[j as int]@);
    let mut i: usize = 0;
    while i < j
        invariant
            i <= j < mods.len(),
            entries.len() == j,
            ms == modifications_view(mods@),
            ms[j as int] == mods@[j as int]@,
            forall|m: int| 0 <= m < i ==> !(#[trigger] entries@[m] == e && ms[m].line_number == ms[j as int].line_number),
        decreases j - i,
    {
        assert(ms[i as int] == mods@[i as int]@);
        if entries[i] == e && mods[i].line_number == mods[j].line_number {
            return true;
        }
        i += 1;
    }
    false
}

/// The file targeted by each modification.
fn resolve_modification_targets(keys: &Vec<Vec<char>>, mods: &Vec<Modification>) -> (r: Result<Vec<usize>, EmbedError>)
    ensures
        match (r, resolve_targets(crate::order::keys_view(keys@), modifications_view(mods@), 0, Seq::empty())) {
            (Ok(entries), Ok(se)) => entries@ == se,
            (Err(e), Err(se)) => e@ == se,
            _ => false,
        },
        r matches Ok(entries) ==> entries.len() == mods.len() && forall|j: int| 0 <= j < entries.len() ==> #[trigger] entries@[j] < keys.len(),
{
    let ghost ks = crate::order::keys_view(keys@);
    let ghost ms = modifications_view(mods@);
    let mut entries: Vec<usize> = Vec::new();
    let mut j: usize = 0;
    while j < mods.len()
        invariant
            j <= mods.len(),
            entries.len() == j,
            forall|i: int| 0 <= i < entries.len() ==> #[trigger] entries@[i] < keys.len(),
            ks == crate::order::keys_view(keys@),
            ms == modifications_view(mods@),
            resolve_targets(ks, ms, j as int, entries@) == resolve_targets(ks, ms, 0, Seq::empty()),
        decreases mods.len() - j,
    {
        assert(ms[j as int] == mods@[j as int]@);
        let key = chars_of(mods[j].path_key.as_str());
        let e = match last_index_with_key(keys, &key) {
            Some(e) => e,
            None => {
                return Err(
                    EmbedError::UnknownTarget {
                        line: mods[j].instruction_line,
                        path: mods[j].relative_path.clone(),
                    },
                );
            },
        };
        if has_duplicate_target(mods, &entries, j, e) {
            return Err(
                EmbedError::DuplicateTarget {
                    line_number: mods[j].line_number,
                    path: mods[j].relative_path.clone(),
                },
            );
        }
        assert(!duplicate_target(ms, entries@, j as int, e));
        entries.push(e);
        j += 1;
    }
    Ok(entries)
}

/// The number of lines of `text`.
fn line_count(text: &String) -> (n: usize)
    ensures
        n == spans_of(text@).len(),
{
    let chars = chars_of(text.as_str());
    let spans = line_spans(&chars);
    assert(spans@.map_values(|s: LineSpan| s@).len() == spans@.len());
    spans.len()
}

/// Refuses the first modification that targets a line past the end of its
/// file.
fn check_line_ranges(files: &Vec<FileEntry>, mods: &Vec<Modification>, entries: &Vec<usize>) -> (r: Result<(), EmbedError>)
    requires
        entries.len() == mods.len(),
        forall|j: int| 0 <= j < entries.len() ==> #[trigger] entries@[j] < files.len(),
    ensures
        match (r, first_out_of_range(entries_view(files@), modifications_view(mods@), entries@, 0)) {
            (Ok(()), None) => true,
            (Err(e), Some(se)) => e@ == se,
            _ => false,
        },
{
    let ghost fs = entries_view(files@);
    let ghost ms = modifications_view(mods@);
    let mut j: usize = 0;
    while j < mods.len()
        invariant
            j <= mods.len() == entries.len(),
            forall|i: int| 0 <= i < entries.len() ==> #[trigger] entries@[i] < files.len(),
            fs == entries_view(files@),
            ms == modifications_view(mods@),
            first_out_of_range(fs, ms, entries@, j as int) == first_out_of_range(fs, ms, entries@, 0),
        decreases mods.len() - j,
    {
        let e = entries[j];
        assert(fs[e as int] == files@[e as int]@);
        assert(ms[j as int] == mods@[j as int]@);
        let count = line_count(&files[e].contents);
        if mods[j].line_number > count {
            return Err(
                EmbedError::LineOutOfRange {
                    line: mods[j].instruction_line,
                    line_number: mods[j].line_number,
                    path: mods[j].relative_path.clone(),
                    line_count: count,
                },
            );
        }
        j += 1;
    }
    Ok(())
}

/// The first modification of file `e` that targets line `line`.
fn find_replacement(mods: &Vec<Modification>, entries: &Vec<usize>, e: usize, line: usize) -> (r: Option<usize>)
    requires
        entries.len() == mods.len(),
    ensures
        match (r, replacement_from(modifications_view(mods@), entries@, e, line as nat, 0)) {
            (Some(j), Some(t)) => j < mods.len() && mods@[j as int].new_content@ == t,
            (None, None) => true,
            _ => false,
        },
{
    let ghost ms = modifications_view(mods@);
    let mut j: usize = 0;
    while j < mods.len()
        invariant
            j <= mods.len() == entries.len(),
            ms == modifications_view(mods@),
            replacement_from(ms, entries@, e, line as nat, j as int) == replacement_from(ms, entries@, e, line as nat, 0),
        decreases mods.len() - j,
    {
        assert(ms[j as int] == mods@[j as int]@);
        if entries[j] == e && mods[j].line_number == line {
            return Some(j);
        }
        j += 1;
    }
    None
}

/// The contents of file `e` after its modifications.
fn rewrite_contents(contents: &String, mods: &Vec<Modification>, entries: &Vec<usize>, e: usize) -> (r: String)
    requires
        entries.len() == mods.len(),
    ensures
        r@ == rewritten(contents@, modifications_view(mods@), entries@, e),
{
    let ghost ms = modifications_view(mods@);
    let chars = chars_of(contents.as_str());
    let ghost c = chars@;
    let spans = line_spans(&chars);
    let ghost ss = spans_of(c);
    proof {
        lemma_spans_from_ok(c, 0);
    }
    let default_ending = preferred_line_ending(&chars);
    let mut out: Vec<char> = Vec::new();
    let mut k: usize = 0;
    assert(out@ + rewritten_from(c, ss, 0, ms, entries@, e) == rewritten(c, ms, entries@, e));
    while k < spans.len()
        invariant
            k <= spans.len(),
            c == chars@,
            c == contents@,
            ss == spans_of(c),
            spans@.map_values(|s: LineSpan| s@) == ss,
            forall|i: int| 0 <= i < ss.len() ==> span_ok(c, #[trigger] ss[i]),
            default_ending@ == preferred_ending(c),
            entries.len() == mods.len(),
            ms == modifications_view(mods@),
            out@ + rewritten_from(c, ss, k as int, ms, entries@, e) == rewritten(c, ms, entries@, e),
        decreases spans.len() - k,
    {
        let span = spans[k];
        assert(ss[k as int] == span@);
        assert(span_ok(c, ss[k as int]));
        let ghost before = out@;
        let ghost ending = c.subrange(span.ending_start as int, span.ending_end as int);
        match find_replacement(mods, entries, e, k + 1) {
            Some(j) => {
                let ending_text = if span.ending_start < span.ending_end {
                    string_of_range(&chars, span.ending_start, span.ending_end)
                } else {
                    String::from_str(default_ending)
                };
                let replacement = normalize_line_endings(mods[j].new_content.as_str(), ending_text.as_str());
                push_str(&mut out, replacement.as_str());
            },
            None => {
                push_range(&mut out, &chars, span.content_start, span.content_end);
            },
        }
        push_range(&mut out, &chars, span.ending_start, span.ending_end);
        assert(out@ == before + rewritten_line(c, ss[k as int], k as int, ms, entries@, e));
        assert(before + rewritten_from(c, ss, k as int, ms, entries@, e) == out@ + rewritten_from(c, ss, k + 1, ms, entries@, e));
        k += 1;
    }
    assert(rewritten_from(c, ss, k as int, ms, entries@, e) == Seq::<char>::empty());
    assert(out@ + Seq::<char>::empty() == out@);
    string_of(&out)
}

/// Applies line modifications to the files of a bundle. Every modification
/// must name a file of the bundle and a line that file has, and no line may
/// be modified twice; otherwise nothing is changed. Line numbers refer to the
/// original files, so a replacement with several lines does not move the
/// targets of others. Returns the number of modifications and of files
/// modified.
pub fn apply_modifications(parsed: &mut ParsedDocument, modifications: Vec<Modification>) -> (r: Result<(usize, usize), EmbedError>)
    ensures
        match (r, apply_spec(old(parsed)@, modifications_view(modifications@))) {
            (Ok((a, b)), Ok((d, x, y))) => final(parsed)@ == d && a == x && b == y,
            (Err(e), Err(se)) => e@ == se && final(parsed)@ == old(parsed)@,
            _ => false,
        },
{
    let ghost ms = modifications_view(modifications@);
    let ghost d0 = parsed@;
    let keys = match collect_file_keys(&parsed.files) {
        Ok(keys) => keys,
        Err(e) => return Err(e),
    };
    let entries = match resolve_modification_targets(&keys, &modifications) {
        Ok(entries) => entries,
        Err(e) => return Err(e),
    };
    match check_line_ranges(&parsed.files, &modifications, &entries) {
        Ok(()) => {},
        Err(e) => return Err(e),
    }
    let n = parsed.files.len();
    let mut files_modified: usize = 0;
    let mut e: usize = 0;
    while e < n
        invariant
            e <= n == parsed.files.len(),
            d0.files.len() == n,
            entries.len() == modifications.len(),
            ms == modifications_view(modifications@),
            parsed.binary_files_skipped == d0.binary_files_skipped,
            parsed.legacy_format == d0.legacy_format,
            files_modified == count_targeted(entries@, e as int),
            files_modified <= e,
            forall|i: int| 0 <= i < e ==> #[trigger] entries_view(parsed.files@)[i] == applied_files(d0.files, ms, entries@)[i],
            forall|i: int| e <= i < n ==> #[trigger] entries_view(parsed.files@)[i] == d0.files[i],
        decreases n - e,
    {
        let mut targeted = false;
        let mut j: usize = 0;
        while j < entries.len()
            invariant
                j <= entries.len(),
                targeted == exists|i: int| 0 <= i < j && #[trigger] entries@[i] == e,
            decreases entries.len() - j,
        {
            if entries[j] == e {
                targeted = true;
            }
            j += 1;
        }
        assert(targeted == entries@.contains(e));
        if targeted {
            assert(entries_view(parsed.files@)[e as int] == parsed.files@[e as int]@);
            let contents = rewrite_contents(&parsed.files[e].contents, &modifications, &entries, e);
            let relative_path = parsed.files[e].relative_path.clone();
            let ghost old_files = parsed.files@;
            parsed.files.set(e, FileEntry { relative_path, contents });
            assert forall|i: int| 0 <= i < n implies #[trigger] entries_view(parsed.files@)[i] == if i == e {
                applied_files(d0.files, ms, entries@)[i]
            } else {
                entries_view(old_files)[i]
            } by {
                if i != e {
                    assert(parsed.files@[i] == old_files[i]);
                }
            }
            files_modified += 1;
        }
        e += 1;
    }
    proof {
        assert(entries_view(parsed.files@) =~= applied_files(d0.files, ms, entries@));
    }
    Ok((modifications.len(), files_modified))
}


/// The first match of a pattern that starts with `,` in a text whose first
/// `k` characters hold no `,` is the first match at or after `k`.
proof fn lemma_find_sub_first(s: Seq<char>, start: int, pat: Seq<char>, k: int)
    requires
        0 <= start <= k,
        pat.len() > 0,
        pat[0] == ',',
        k + pat.len() <= s.len(),
        matches_at(s, k, pat),
        forall|i: int| start <= i < k ==> #[trigger] s[i] != ',',
    ensures
        find_sub_from(s, start, pat) == Some(k),
    decreases k - start,
{
    if start < k {
        assert(s.subrange(start, start + pat.len())[0] == s[start]);
        lemma_find_sub_first(s, start + 1, pat, k);
    }
}

/// A record line `file:<p>,line:<n>,new_content:<c>` is read as a record
/// for path `p` (with `/` separators), line `n` and replacement `c`,
/// whatever `c` holds, for a safe path `p` without `,` and a line number
/// from 1 written in decimal.
pub proof fn lemma_record_line_read(p: Seq<char>, n: nat, c: Seq<char>, instruction_line: nat)
    requires
        safe_relative_path_spec(p) is Ok,
        forall|i: int| 0 <= i < p.len() ==> #[trigger] p[i] != ',',
        1 <= n <= usize::MAX,
    ensures
        record_spec("file:"@ + p + ",line:"@ + crate::text::decimal(n) + ",new_content:"@ + c, instruction_line)
            == Ok::<Option<SpecModification>, SpecEmbedError>(
            Some(
                SpecModification {
                    path: safe_relative_path_spec(p)->Ok_0.0,
                    key: safe_relative_path_spec(p)->Ok_0.1,
                    line_number: n,
                    new_content: c,
                    instruction_line,
                },
            ),
        ),
{
    reveal_strlit("file:");
    reveal_strlit(",line:");
    reveal_strlit(",new_content:");
    let d = crate::text::decimal(n);
    crate::text::lemma_decimal_digits(n);
    crate::text::lemma_parse_decimal(n as usize);
    let line = "file:"@ + p + ",line:"@ + d + ",new_content:"@ + c;
    assert(line.subrange(0, 5) == "file:"@);
    let record = line.skip(5);
    let rest = ",line:"@ + d + ",new_content:"@ + c;
    assert(record == p + rest);
    assert(record.subrange(p.len() as int, p.len() + 6int) == ",line:"@);
    assert forall|i: int| 0 <= i < p.len() implies #[trigger] record[i] != ',' by {
        assert(record[i] == p[i]);
    }
    lemma_find_sub_first(record, 0, ",line:"@, p.len() as int);
    assert(record.take(p.len() as int) == p);
    let after = record.skip(p.len() + 6int);
    assert(after == d + ",new_content:"@ + c);
    assert(after.subrange(d.len() as int, d.len() + 13int) == ",new_content:"@);
    assert forall|i: int| 0 <= i < d.len() implies #[trigger] after[i] != ',' by {
        assert(after[i] == d[i]);
        assert(crate::text::is_digit(d[i]));
    }
    lemma_find_sub_first(after, 0, ",new_content:"@, d.len() as int);
    assert(after.take(d.len() as int) == d);
    assert(after.skip(d.len() + 13int) == c);
    assert(p.len() > 0);
}

} // verus!
