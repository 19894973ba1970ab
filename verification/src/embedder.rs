//! Reading a bundle back into files: the two bundle formats, path safety,
//! duplicate and file/folder checks, and line modifications.
use vstd::prelude::*;

use crate::order::{lex_le, lex_lt};
use crate::text::{
    byte_length, chars_of, find_char, find_from, lemma_find_from, lemma_utf8_len_concat, lemma_utf8_len_single, lemma_utf8_len_prefix,
    decimal, lowercase, matches_str_at, parse_usize, parse_usize_spec, push_decimal, push_range, push_str, seq_eq_str, string_of,
    string_of_range, trim, trim_bounds, unicode_lowercase, utf8_len, utf8_len_range, utf8_width, utf8_width_exec,
};

verus! {

/// Why a path from a bundle or a modification file was refused.
#[derive(Debug)]
pub enum PathError {
    /// The path is empty.
    Empty,
    /// The path has an empty, `.` or `..` component, or one holding `:` or NUL.
    Unsafe(String),
}

/// `PathError` with its text as characters.
pub enum SpecPathError {
    Empty,
    Unsafe(Seq<char>),
}

impl View for PathError {
    type V = SpecPathError;

    open spec fn view(&self) -> SpecPathError {
        match self {
            PathError::Empty => SpecPathError::Empty,
            PathError::Unsafe(raw) => SpecPathError::Unsafe(raw@),
        }
    }
}

/// A component of a relative path that may be created inside the output
/// folder: not empty, not `.` or `..`, without `:` and without NUL.
pub open spec fn safe_component(part: Seq<char>) -> bool {
    &&& part.len() > 0
    &&& part != "."@
    &&& part != ".."@
    &&& !part.contains(':')
    &&& !part.contains('\0')
}

/// `s` with every `\` replaced by `/`.
pub open spec fn with_forward_slashes(s: Seq<char>) -> Seq<char> {
    s.map_values(|c: char| if c == '\\' { '/' } else { c })
}

/// The case-folded key of the `/`-separated components of `s[start..]`,
/// joined by `/`, or `None` when one of them is not a safe component.
pub open spec fn components_key(s: Seq<char>, start: int) -> Option<Seq<char>>
    decreases s.len() - start,
{
    if start < 0 || start > s.len() {
        None
    } else {
        let j = find_from(s, start, '/');
        let part = s.subrange(start, j);
        proof {
            lemma_find_from(s, start, '/');
        }
        if !safe_component(part) {
            None
        } else if j >= s.len() {
            Some(unicode_lowercase(part))
        } else {
            match components_key(s, j + 1) {
                Some(k) => Some(unicode_lowercase(part) + seq!['/'] + k),
                None => None,
            }
        }
    }
}

/// What `safe_relative_path` returns: the path with `/` separators and its
/// case-folded key, or why it was refused.
pub open spec fn safe_relative_path_spec(raw: Seq<char>) -> Result<
    (Seq<char>, Seq<char>),
    SpecPathError,
> {
    if raw.len() == 0 {
        Err(SpecPathError::Empty)
    } else {
        match components_key(with_forward_slashes(raw), 0) {
            Some(key) => Ok((with_forward_slashes(raw), key)),
            None => Err(SpecPathError::Unsafe(raw)),
        }
    }
}

/// Checks that a path from a bundle stays inside the output folder and
/// returns it with `/` separators, together with its case-folded key, which
/// is compared to find duplicate paths.
pub fn safe_relative_path(raw_path: &str) -> (r: Result<(String, String), PathError>)
    ensures
        match (r, safe_relative_path_spec(raw_path@)) {
            (Ok((path, key)), Ok((p, k))) => path@ == p && key@ == k,
            (Err(e), Err(se)) => e@ == se,
            _ => false,
        },
{
    let raw = chars_of(raw_path);
    if raw.len() == 0 {
        return Err(PathError::Empty);
    }
    let mut normalized: Vec<char> = Vec::new();
    let mut i: usize = 0;
    while i < raw.len()
        invariant
            i <= raw.len(),
            raw@ == raw_path@,
            normalized@ == with_forward_slashes(raw@.take(i as int)),
        decreases raw.len() - i,
    {
        let c = raw[i];
        normalized.push(if c == '\\' { '/' } else { c });
        i += 1;
        assert(with_forward_slashes(raw@.take(i as int)) == with_forward_slashes(
            raw@.take((i - 1) as int),
        ).push(if c == '\\' { '/' } else { c }));
    }
    assert(raw@.take(raw.len() as int) == raw@);
    let ghost s = normalized@;
    let n = normalized.len();
    let mut key: Vec<char> = Vec::new();
    let mut start: usize = 0;
    loop
        invariant
            s == normalized@,
            n == s.len(),
            start <= n,
            raw@ == raw_path@,
            s == with_forward_slashes(raw_path@),
            raw_path@.len() > 0,
            components_key(s, 0) == match components_key(s, start as int) {
                Some(k) => Some(key@ + k),
                None => None,
            },
        decreases n - start,
    {
        let ghost k0 = key@;
        let j = find_char(&normalized, start, '/');
        let part = string_of_range(&normalized, start, j);
        let part_chars = chars_of(part.as_str());
        if part_chars.len() == 0 || seq_eq_str(&part_chars, ".") || seq_eq_str(&part_chars, "..")
            || contains_char(&part_chars, ':') || contains_char(&part_chars, '\0') {
            return Err(PathError::Unsafe(string_of(&raw)));
        }
        let lowered = lowercase(part.as_str());
        let lowered_chars = chars_of(lowered.as_str());
        push_range(&mut key, &lowered_chars, 0, lowered_chars.len());
        assert(lowered_chars@.subrange(0, lowered_chars@.len() as int) == lowered_chars@);
        if j == n {
            assert(components_key(s, 0) == Some(key@));
            return Ok((string_of(&normalized), string_of(&key)));
        }
        key.push('/');
        proof {
            let lp = unicode_lowercase(s.subrange(start as int, j as int));
            assert(key@ == k0 + lp + seq!['/']);
            match components_key(s, j + 1) {
                Some(k) => {
                    assert(key@ + k == k0 + (lp + seq!['/'] + k));
                },
                None => {},
            }
        }
        start = j + 1;
    }
}

/// `chars` holds `c`.
pub fn contains_char(chars: &Vec<char>, c: char) -> (r: bool)
    ensures
        r == chars@.contains(c),
{
    let mut i: usize = 0;
    while i < chars.len()
        invariant
            i <= chars.len(),
            forall|j: int| 0 <= j < i ==> chars@[j] != c,
        decreases chars.len() - i,
    {
        if chars[i] == c {
            return true;
        }
        i += 1;
    }
    false
}

} // verus!

verus! {

/// Why a bundle or a modification file could not be used.
#[derive(Debug)]
pub enum EmbedError {
    /// The bundle ends where another line was expected.
    UnexpectedEnd,
    /// The first line is not a marker of the current format.
    UnsupportedFormat,
    /// A line that should be a file header is not one; `byte` is the byte
    /// offset just after it.
    InvalidHeader { byte: usize, header: String },
    /// The line after a header gives no content length.
    MissingLength { path: String },
    /// The content length is not a number.
    InvalidLength { path: String },
    /// The bundle is shorter than the content length.
    ShortContent { path: String },
    /// The content length ends inside a character.
    SplitCharacter { path: String },
    /// The contents are not followed by a line break or the end.
    MissingSeparator { path: String },
    /// A version 1 bundle without any file header.
    NoHeaders,
    /// Text before the first header of a version 1 bundle.
    TextBeforeFirstHeader,
    /// A refused path in a header.
    Path(PathError),
    /// Two files whose paths differ only in case (or not at all).
    DuplicatePath { path: String },
    /// A path that is both a file and the folder of another file.
    FileFolderConflict { key: String },
    /// A modification file line outside any record.
    NotARecord { line: usize },
    /// A record without `,line:`.
    MissingLineField { line: usize },
    /// A record without `,new_content:`.
    MissingContentField { line: usize },
    /// A record whose file path is empty.
    EmptyTargetPath { line: usize },
    /// A record whose target line is not a number.
    InvalidLineNumber { line: usize, value: String },
    /// A record that targets line 0.
    LineZero { line: usize },
    /// A record whose file path is refused.
    TargetPath { line: usize, error: PathError },
    /// A modification file without records.
    NoRecords,
    /// A record for a file that is not in the bundle.
    UnknownTarget { line: usize, path: String },
    /// Two records for the same line of the same file.
    DuplicateTarget { line_number: usize, path: String },
    /// A record for a line past the end of its file.
    LineOutOfRange { line: usize, line_number: usize, path: String, line_count: usize },
}

/// `EmbedError` with its texts as characters.
pub enum SpecEmbedError {
    UnexpectedEnd,
    UnsupportedFormat,
    InvalidHeader { byte: nat, header: Seq<char> },
    MissingLength { path: Seq<char> },
    InvalidLength { path: Seq<char> },
    ShortContent { path: Seq<char> },
    SplitCharacter { path: Seq<char> },
    MissingSeparator { path: Seq<char> },
    NoHeaders,
    TextBeforeFirstHeader,
    Path(SpecPathError),
    DuplicatePath { path: Seq<char> },
    FileFolderConflict { key: Seq<char> },
    NotARecord { line: nat },
    MissingLineField { line: nat },
    MissingContentField { line: nat },
    EmptyTargetPath { line: nat },
    InvalidLineNumber { line: nat, value: Seq<char> },
    LineZero { line: nat },
    TargetPath { line: nat, error: SpecPathError },
    NoRecords,
    UnknownTarget { line: nat, path: Seq<char> },
    DuplicateTarget { line_number: nat, path: Seq<char> },
    LineOutOfRange { line: nat, line_number: nat, path: Seq<char>, line_count: nat },
}

impl View for EmbedError {
    type V = SpecEmbedError;

    open spec fn view(&self) -> SpecEmbedError {
        match self {
            EmbedError::UnexpectedEnd => SpecEmbedError::UnexpectedEnd,
            EmbedError::UnsupportedFormat => SpecEmbedError::UnsupportedFormat,
            EmbedError::InvalidHeader { byte, header } => SpecEmbedError::InvalidHeader {
                byte: *byte as nat,
                header: header@,
            },
            EmbedError::MissingLength { path } => SpecEmbedError::MissingLength { path: path@ },
            EmbedError::InvalidLength { path } => SpecEmbedError::InvalidLength { path: path@ },
            EmbedError::ShortContent { path } => SpecEmbedError::ShortContent { path: path@ },
            EmbedError::SplitCharacter { path } => SpecEmbedError::SplitCharacter { path: path@ },
            EmbedError::MissingSeparator { path } => SpecEmbedError::MissingSeparator {
                path: path@,
            },
            EmbedError::NoHeaders => SpecEmbedError::NoHeaders,
            EmbedError::TextBeforeFirstHeader => SpecEmbedError::TextBeforeFirstHeader,
            EmbedError::Path(e) => SpecEmbedError::Path(e@),
            EmbedError::DuplicatePath { path } => SpecEmbedError::DuplicatePath { path: path@ },
            EmbedError::FileFolderConflict { key } => SpecEmbedError::FileFolderConflict {
                key: key@,
            },
            EmbedError::NotARecord { line } => SpecEmbedError::NotARecord { line: *line as nat },
            EmbedError::MissingLineField { line } => SpecEmbedError::MissingLineField {
                line: *line as nat,
            },
            EmbedError::MissingContentField { line } => SpecEmbedError::MissingContentField {
                line: *line as nat,
            },
            EmbedError::EmptyTargetPath { line } => SpecEmbedError::EmptyTargetPath {
                line: *line as nat,
            },
            EmbedError::InvalidLineNumber { line, value } => SpecEmbedError::InvalidLineNumber {
                line: *line as nat,
                value: value@,
            },
            EmbedError::LineZero { line } => SpecEmbedError::LineZero { line: *line as nat },
            EmbedError::TargetPath { line, error } => SpecEmbedError::TargetPath {
                line: *line as nat,
                error: error@,
            },
            EmbedError::NoRecords => SpecEmbedError::NoRecords,
            EmbedError::UnknownTarget { line, path } => SpecEmbedError::UnknownTarget {
                line: *line as nat,
                path: path@,
            },
            EmbedError::DuplicateTarget { line_number, path } => SpecEmbedError::DuplicateTarget {
                line_number: *line_number as nat,
                path: path@,
            },
            EmbedError::LineOutOfRange { line, line_number, path, line_count } =>
                SpecEmbedError::LineOutOfRange {
                line: *line as nat,
                line_number: *line_number as nat,
                path: path@,
                line_count: *line_count as nat,
            },
        }
    }
}

/// One file recreated from a bundle.
pub struct FileEntry {
    /// Path relative to the output folder, with `/` separators.
    pub relative_path: String,
    pub contents: String,
}

/// `FileEntry` as characters.
pub struct SpecEntry {
    pub path: Seq<char>,
    pub contents: Seq<char>,
}

impl View for FileEntry {
    type V = SpecEntry;

    open spec fn view(&self) -> SpecEntry {
        SpecEntry { path: self.relative_path@, contents: self.contents@ }
    }
}

/// The files of a bundle.
pub struct ParsedDocument {
    pub files: Vec<FileEntry>,
    pub binary_files_skipped: usize,
    pub legacy_format: bool,
}

/// `ParsedDocument` as characters.
pub struct SpecDocument {
    pub files: Seq<SpecEntry>,
    pub binary_files_skipped: nat,
    pub legacy_format: bool,
}

pub open spec fn entries_view(files: Seq<FileEntry>) -> Seq<SpecEntry> {
    files.map_values(|e: FileEntry| e@)
}

impl View for ParsedDocument {
    type V = SpecDocument;

    open spec fn view(&self) -> SpecDocument {
        SpecDocument {
            files: entries_view(self.files@),
            binary_files_skipped: self.binary_files_skipped as nat,
            legacy_format: self.legacy_format,
        }
    }
}

pub open spec fn document_result(
    r: Result<ParsedDocument, EmbedError>,
) -> Result<SpecDocument, SpecEmbedError> {
    match r {
        Ok(d) => Ok(d@),
        Err(e) => Err(e@),
    }
}

/// `l` without one trailing `\r`.
pub open spec fn strip_cr(l: Seq<char>) -> Seq<char> {
    if l.len() > 0 && l.last() == '\r' {
        l.drop_last()
    } else {
        l
    }
}

/// Where the line after the one that starts at `pos` starts.
pub open spec fn next_line_start(s: Seq<char>, pos: int) -> int {
    let e = find_from(s, pos, '\n');
    if e < s.len() {
        e + 1
    } else {
        s.len() as int
    }
}

/// The line that starts at `pos`, without its line break.
pub open spec fn line_at(s: Seq<char>, pos: int) -> Seq<char> {
    strip_cr(s.subrange(pos, find_from(s, pos, '\n')))
}

/// The path named by a file header line `==<path> content==`.
pub open spec fn header_path(l: Seq<char>) -> Option<Seq<char>> {
    if l.len() > 12 && l.take(2) == "=="@ && l.subrange(l.len() - 10, l.len() as int)
        == " content=="@ {
        Some(l.subrange(2, l.len() - 10))
    } else {
        None
    }
}

/// The digits of a length line `==utf8-bytes:<digits>==`.
pub open spec fn length_field(l: Seq<char>) -> Option<Seq<char>> {
    if l.len() >= 15 && l.take(13) == "==utf8-bytes:"@ && l.subrange(l.len() - 2, l.len() as int)
        == "=="@ {
        Some(l.subrange(13, l.len() - 2))
    } else {
        None
    }
}

/// The character index at which `n` UTF-8 bytes of `s[from..]` end, if
/// that is a character boundary inside `s`.
pub open spec fn char_end(s: Seq<char>, from: int, n: nat) -> Option<int>
    decreases s.len() - from,
{
    if n == 0 {
        Some(from)
    } else if from < 0 || from >= s.len() {
        None
    } else if utf8_width(s[from]) > n {
        None
    } else {
        char_end(s, from + 1, (n - utf8_width(s[from])) as nat)
    }
}

pub proof fn lemma_char_end(s: Seq<char>, from: int, n: nat)
    requires
        0 <= from <= s.len(),
    ensures
        char_end(s, from, n) matches Some(e) ==> from <= e <= s.len() && utf8_len(
            s.subrange(from, e),
        ) == n,
    decreases s.len() - from,
{
    assert(utf8_len(Seq::<char>::empty()) == 0);
    if n == 0 {
        assert(s.subrange(from, from) == Seq::<char>::empty());
    } else if from < s.len() && utf8_width(s[from]) <= n {
        let m = (n - utf8_width(s[from])) as nat;
        lemma_char_end(s, from + 1, m);
        if let Some(e) = char_end(s, from + 1, m) {
            lemma_utf8_len_concat(seq![s[from]], s.subrange(from + 1, e));
            assert(seq![s[from]] + s.subrange(from + 1, e) == s.subrange(from, e));
            assert(seq![s[from]].drop_last() == Seq::<char>::empty());
            assert(seq![s[from]].last() == s[from]);
            assert(utf8_len(seq![s[from]]) == utf8_width(s[from]));
        }
    }
}

/// What reading one entry of a current-format bundle gives.
pub enum SpecV2Step {
    /// Reading goes on at `cursor`; `entry` is the file read, if any, and
    /// `binary` tells whether a skipped binary file was read.
    Next { cursor: int, entry: Option<SpecEntry>, binary: bool },
    Stop(SpecEmbedError),
}

/// Reading the entry of the bundle `s` that starts at `cursor < s.len()`.
pub open spec fn v2_step(s: Seq<char>, cursor: int) -> SpecV2Step {
    let header = line_at(s, cursor);
    let c1 = next_line_start(s, cursor);
    if header.len() == 0 {
        SpecV2Step::Next { cursor: c1, entry: None, binary: false }
    } else {
        match header_path(header) {
            None => SpecV2Step::Stop(
                SpecEmbedError::InvalidHeader { byte: utf8_len(s.take(c1)), header: header },
            ),
            Some(raw) => v2_body(s, c1, raw),
        }
    }
}

/// Reading the length line and contents of the entry whose header, naming
/// `raw`, ends at `c1`.
pub open spec fn v2_body(s: Seq<char>, c1: int, raw: Seq<char>) -> SpecV2Step {
    if c1 >= s.len() {
        SpecV2Step::Stop(SpecEmbedError::UnexpectedEnd)
    } else {
        let meta = line_at(s, c1);
        let c2 = next_line_start(s, c1);
        if meta == crate::extractor::BINARY_MARKER@ {
            SpecV2Step::Next { cursor: c2, entry: None, binary: true }
        } else {
            match length_field(meta) {
                None => SpecV2Step::Stop(SpecEmbedError::MissingLength { path: raw }),
                Some(digits) => match parse_usize_spec(digits) {
                    None => SpecV2Step::Stop(SpecEmbedError::InvalidLength { path: raw }),
                    Some(n) => v2_contents(s, c2, raw, n as nat),
                },
            }
        }
    }
}

/// Reading `n` bytes of contents that start at `c2` for the file `raw`.
pub open spec fn v2_contents(s: Seq<char>, c2: int, raw: Seq<char>, n: nat) -> SpecV2Step {
    if utf8_len(s.take(c2)) + n > utf8_len(s) {
        SpecV2Step::Stop(SpecEmbedError::ShortContent { path: raw })
    } else {
        match char_end(s, c2, n) {
            None => SpecV2Step::Stop(SpecEmbedError::SplitCharacter { path: raw }),
            Some(e) => match safe_relative_path_spec(raw) {
                Err(pe) => SpecV2Step::Stop(SpecEmbedError::Path(pe)),
                Ok((rel, _)) => {
                    let entry = Some(SpecEntry { path: rel, contents: s.subrange(c2, e) });
                    if e >= s.len() {
                        SpecV2Step::Next { cursor: e, entry, binary: false }
                    } else if s[e] == '\n' {
                        SpecV2Step::Next { cursor: e + 1, entry, binary: false }
                    } else if e + 1 < s.len() && s[e] == '\r' && s[e + 1] == '\n' {
                        SpecV2Step::Next { cursor: e + 2, entry, binary: false }
                    } else {
                        SpecV2Step::Stop(SpecEmbedError::MissingSeparator { path: raw })
                    }
                },
            },
        }
    }
}

/// Each entry read moves the cursor forward and stays inside `s`.
pub proof fn lemma_v2_step_advances(s: Seq<char>, cursor: int)
    requires
        0 <= cursor < s.len(),
    ensures
        v2_step(s, cursor) matches SpecV2Step::Next { cursor: c, .. } ==> cursor < c <= s.len(),
{
    lemma_find_from(s, cursor, '\n');
    let c1 = next_line_start(s, cursor);
    if c1 < s.len() {
        lemma_find_from(s, c1, '\n');
        let c2 = next_line_start(s, c1);
        let meta = line_at(s, c1);
        if let Some(digits) = length_field(meta) {
            if let Some(n) = parse_usize_spec(digits) {
                lemma_char_end(s, c2, n as nat);
            }
        }
    }
}

/// `files` followed by the entry read, if any.
pub open spec fn with_entry(files: Seq<SpecEntry>, entry: Option<SpecEntry>) -> Seq<SpecEntry> {
    match entry {
        Some(e) => files.push(e),
        None => files,
    }
}

/// The entries of a current-format bundle `s` from `cursor` on, after
/// `files` and `binary` skipped files have been read.
pub open spec fn v2_entries(s: Seq<char>, cursor: int, files: Seq<SpecEntry>, binary: nat) -> Result<
    SpecDocument,
    SpecEmbedError,
>
    decreases s.len() - cursor,
{
    if cursor < 0 || cursor >= s.len() {
        Ok(SpecDocument { files, binary_files_skipped: binary, legacy_format: false })
    } else {
        proof {
            lemma_v2_step_advances(s, cursor);
        }
        match v2_step(s, cursor) {
            SpecV2Step::Stop(e) => Err(e),
            SpecV2Step::Next { cursor: c, entry, binary: b } => v2_entries(
                s,
                c,
                with_entry(files, entry),
                if b {
                    binary + 1
                } else {
                    binary
                },
            ),
        }
    }
}

/// What `parse_v2` returns for the bundle `s`.
pub open spec fn parse_v2_spec(s: Seq<char>) -> Result<SpecDocument, SpecEmbedError> {
    if s.len() == 0 {
        Err(SpecEmbedError::UnexpectedEnd)
    } else {
        let marker = line_at(s, 0);
        if marker != crate::extractor::FORMAT_MARKER@ && marker
            != crate::extractor::PREVIOUS_FORMAT_MARKER@ {
            Err(SpecEmbedError::UnsupportedFormat)
        } else {
            v2_entries(s, next_line_start(s, 0), Seq::empty(), 0)
        }
    }
}

} // verus!

verus! {

/// Reads the line that starts at `*cursor`: returns its bounds without the
/// line break (and without one `\r` before it) and moves `*cursor` to the
/// start of the next line.
pub fn take_line(document: &Vec<char>, cursor: &mut usize) -> (r: Result<(usize, usize), EmbedError>)
    requires
        *old(cursor) <= document.len(),
    ensures
        *old(cursor) >= document.len() ==> r is Err && r->Err_0@ == SpecEmbedError::UnexpectedEnd
            && *final(cursor) == *old(cursor),
        *old(cursor) < document.len() ==> (r matches Ok((a, b)) && *old(cursor) <= a <= b
            <= *final(cursor) && document@.subrange(a as int, b as int) == line_at(
            document@,
            *old(cursor) as int,
        ) && *final(cursor) == next_line_start(document@, *old(cursor) as int) && *old(cursor)
            < *final(cursor) <= document.len()),
{
    if *cursor >= document.len() {
        return Err(EmbedError::UnexpectedEnd);
    }
    let start = *cursor;
    let end = find_char(document, start, '\n');
    *cursor = if end < document.len() {
        end + 1
    } else {
        document.len()
    };
    let line_end = if end > start && document[end - 1] == '\r' {
        end - 1
    } else {
        end
    };
    assert(document@.subrange(start as int, line_end as int) == strip_cr(
        document@.subrange(start as int, end as int),
    ));
    Ok((start, line_end))
}

/// Bounds of the path in a header line `chars[from..to]`.
pub fn header_bounds(chars: &Vec<char>, from: usize, to: usize) -> (r: Option<(usize, usize)>)
    requires
        from <= to <= chars.len(),
    ensures
        match r {
            Some((a, b)) => from <= a <= b <= to && header_path(
                chars@.subrange(from as int, to as int),
            ) == Some(chars@.subrange(a as int, b as int)),
            None => header_path(chars@.subrange(from as int, to as int)) is None,
        },
{
    let ghost l = chars@.subrange(from as int, to as int);
    if to - from > 12 && matches_str_at(chars, from, "==") && matches_str_at(
        chars,
        to - 10,
        " content==",
    ) {
        proof {
            reveal_strlit("==");
            reveal_strlit(" content==");
            assert(l.take(2) == chars@.subrange(from as int, from + 2));
            assert(l.subrange(l.len() - 10, l.len() as int) == chars@.subrange(
                to - 10,
                to as int,
            ));
            assert(l.subrange(2, l.len() - 10) == chars@.subrange(from + 2, to - 10));
        }
        Some((from + 2, to - 10))
    } else {
        proof {
            reveal_strlit("==");
            reveal_strlit(" content==");
            if l.len() > 12 {
                assert(l.take(2) == chars@.subrange(from as int, from + 2));
                assert(l.subrange(l.len() - 10, l.len() as int) == chars@.subrange(
                    to - 10,
                    to as int,
                ));
            }
        }
        None
    }
}

/// The path named by a file header line `==<path> content==`.
pub fn parse_header(line: &str) -> (r: Option<String>)
    ensures
        match r {
            Some(p) => header_path(line@) == Some(p@),
            None => header_path(line@) is None,
        },
{
    let chars = chars_of(line);
    assert(chars@.subrange(0, chars@.len() as int) == chars@);
    match header_bounds(&chars, 0, chars.len()) {
        Some((a, b)) => Some(string_of_range(&chars, a, b)),
        None => None,
    }
}

/// Bounds of the digits in a length line `chars[from..to]`.
fn length_bounds(chars: &Vec<char>, from: usize, to: usize) -> (r: Option<(usize, usize)>)
    requires
        from <= to <= chars.len(),
    ensures
        match r {
            Some((a, b)) => from <= a <= b <= to && length_field(
                chars@.subrange(from as int, to as int),
            ) == Some(chars@.subrange(a as int, b as int)),
            None => length_field(chars@.subrange(from as int, to as int)) is None,
        },
{
    let ghost l = chars@.subrange(from as int, to as int);
    proof {
        reveal_strlit("==utf8-bytes:");
        reveal_strlit("==");
    }
    if to - from >= 15 && matches_str_at(chars, from, "==utf8-bytes:") && matches_str_at(
        chars,
        to - 2,
        "==",
    ) {
        assert(l.take(13) == chars@.subrange(from as int, from + 13));
        assert(l.subrange(l.len() - 2, l.len() as int) == chars@.subrange(to - 2, to as int));
        assert(l.subrange(13, l.len() - 2) == chars@.subrange(from + 13, to - 2));
        Some((from + 13, to - 2))
    } else {
        proof {
            if l.len() >= 15 {
                assert(l.take(13) == chars@.subrange(from as int, from + 13));
            assert(l.subrange(l.len() - 2, l.len() as int) == chars@.subrange(
                to - 2,
                to as int,
            ));
            }
        }
        None
    }
}

/// `chars[from..to]` equals the literal `text`.
pub fn range_eq_str(chars: &Vec<char>, from: usize, to: usize, text: &str) -> (r: bool)
    requires
        from <= to <= chars.len(),
    ensures
        r == (chars@.subrange(from as int, to as int) == text@),
{
    let t = chars_of(text);
    if to - from != t.len() {
        return false;
    }
    matches_str_at(chars, from, text)
}

/// The character index at which `n` UTF-8 bytes of `chars[from..]` end, if
/// that is a character boundary.
fn content_end(chars: &Vec<char>, from: usize, n: usize) -> (r: Option<usize>)
    requires
        from <= chars.len(),
    ensures
        match r {
            Some(e) => char_end(chars@, from as int, n as nat) == Some(e as int),
            None => char_end(chars@, from as int, n as nat) is None,
        },
{
    let mut pos = from;
    let mut left = n;
    while left > 0
        invariant
            from <= pos <= chars.len(),
            char_end(chars@, from as int, n as nat) == char_end(chars@, pos as int, left as nat),
        decreases left,
    {
        if pos >= chars.len() {
            return None;
        }
        let w = utf8_width_exec(chars[pos]);
        if w > left {
            return None;
        }
        left = left - w;
        pos += 1;
    }
    Some(pos)
}

/// Skips the line break that separates an entry's contents from the next
/// header, if the bundle does not end here.
pub fn consume_entry_separator(chars: &Vec<char>, cursor: &mut usize, raw_path: &str) -> (r:
    Result<(), EmbedError>)
    requires
        *old(cursor) <= chars.len(),
    ensures
        ({
            let s = chars@;
            let e = *old(cursor) as int;
            if e >= s.len() {
                r is Ok && *final(cursor) == e
            } else if s[e] == '\n' {
                r is Ok && *final(cursor) == e + 1
            } else if e + 1 < s.len() && s[e] == '\r' && s[e + 1] == '\n' {
                r is Ok && *final(cursor) == e + 2
            } else {
                r is Err && r->Err_0@ == SpecEmbedError::MissingSeparator { path: raw_path@ }
            }
        }),
{
    if *cursor == chars.len() {
        return Ok(());
    }
    if chars[*cursor] == '\n' {
        *cursor += 1;
        return Ok(());
    }
    if *cursor + 1 < chars.len() && chars[*cursor] == '\r' && chars[*cursor + 1] == '\n' {
        *cursor += 2;
        return Ok(());
    }
    Err(EmbedError::MissingSeparator { path: String::from_str(raw_path) })
}

} // verus!

verus! {

/// One entry read from a current-format bundle.
pub enum V2Item {
    Blank,
    Binary,
    File(FileEntry),
}

/// Reads the entry that starts at `*cursor`, advancing `*cursor` past it and
/// `*byte_cursor` by its length in bytes.
#[verifier::spinoff_prover]
fn read_v2_entry(chars: &Vec<char>, cursor: &mut usize, byte_cursor: &mut usize, total: usize) -> (r:
    Result<V2Item, EmbedError>)
    requires
        *old(cursor) < chars.len(),
        total == utf8_len(chars@),
        *old(byte_cursor) == utf8_len(chars@.take(*old(cursor) as int)),
    ensures
        match (r, v2_step(chars@, *old(cursor) as int)) {
            (Err(e), SpecV2Step::Stop(se)) => e@ == se,
            (Ok(item), SpecV2Step::Next { cursor: c, entry, binary }) => {
                &&& *final(cursor) == c
                &&& *final(byte_cursor) == utf8_len(chars@.take(c))
                &&& match item {
                    V2Item::Blank => entry is None && !binary,
                    V2Item::Binary => entry is None && binary,
                    V2Item::File(f) => entry == Some(f@) && !binary,
                }
            },
            _ => false,
        },
{
    let ghost s = chars@;
    let n = chars.len();
    let start = *cursor;
    proof {
        lemma_find_from(s, start as int, '\n');
        lemma_utf8_len_prefix(s, 0, n as int);
        assert(s.take(n as int) == s);
        assert(s.take(0) == Seq::<char>::empty());
        assert(utf8_len(Seq::<char>::empty()) == 0);
    }
    let (ha, hb) = match take_line(chars, cursor) {
        Ok(bounds) => bounds,
        Err(e) => return Err(e),
    };
    proof {
        lemma_utf8_len_prefix(s, start as int, *cursor as int);
        lemma_utf8_len_prefix(s, *cursor as int, n as int);
    }
    *byte_cursor = *byte_cursor + utf8_len_range(chars, start, *cursor);
    if ha == hb {
        return Ok(V2Item::Blank);
    }
    let (ra, rb) = match header_bounds(chars, ha, hb) {
        Some(bounds) => bounds,
        None => {
            return Err(
                EmbedError::InvalidHeader {
                    byte: *byte_cursor,
                    header: string_of_range(chars, ha, hb),
                },
            );
        },
    };
    let raw_path = string_of_range(chars, ra, rb);
    read_v2_body(chars, cursor, byte_cursor, total, raw_path)
}

/// Reads the length line and contents of an entry whose header named
/// `raw_path` and ended at `*cursor`.
#[verifier::spinoff_prover]
fn read_v2_body(
    chars: &Vec<char>,
    cursor: &mut usize,
    byte_cursor: &mut usize,
    total: usize,
    raw_path: String,
) -> (r: Result<V2Item, EmbedError>)
    requires
        *old(cursor) <= chars.len(),
        total == utf8_len(chars@),
        *old(byte_cursor) == utf8_len(chars@.take(*old(cursor) as int)),
    ensures
        match (r, v2_body(chars@, *old(cursor) as int, raw_path@)) {
            (Err(e), SpecV2Step::Stop(se)) => e@ == se,
            (Ok(item), SpecV2Step::Next { cursor: c, entry, binary }) => {
                &&& *final(cursor) == c
                &&& *final(byte_cursor) == utf8_len(chars@.take(c))
                &&& match item {
                    V2Item::Blank => entry is None && !binary,
                    V2Item::Binary => entry is None && binary,
                    V2Item::File(f) => entry == Some(f@) && !binary,
                }
            },
            _ => false,
        },
{
    let ghost s = chars@;
    let n = chars.len();
    proof {
        lemma_utf8_len_prefix(s, 0, n as int);
        assert(s.take(n as int) == s);
    }
    let meta_start = *cursor;
    if meta_start < n {
        proof {
            lemma_find_from(s, meta_start as int, '\n');
        }
    }
    let (la, lb) = match take_line(chars, cursor) {
        Ok(bounds) => bounds,
        Err(e) => return Err(e),
    };
    proof {
        lemma_utf8_len_prefix(s, meta_start as int, *cursor as int);
        lemma_utf8_len_prefix(s, *cursor as int, n as int);
    }
    *byte_cursor = *byte_cursor + utf8_len_range(chars, meta_start, *cursor);
    if range_eq_str(chars, la, lb, crate::extractor::BINARY_MARKER) {
        return Ok(V2Item::Binary);
    }
    let (da, db) = match length_bounds(chars, la, lb) {
        Some(bounds) => bounds,
        None => return Err(EmbedError::MissingLength { path: raw_path }),
    };
    let length = match parse_usize(chars, da, db) {
        Some(value) => value,
        None => return Err(EmbedError::InvalidLength { path: raw_path }),
    };
    read_v2_contents(chars, cursor, byte_cursor, total, raw_path, length)
}

/// Reads `length` bytes of contents for the file `raw_path` at `*cursor`.
#[verifier::spinoff_prover]
fn read_v2_contents(
    chars: &Vec<char>,
    cursor: &mut usize,
    byte_cursor: &mut usize,
    total: usize,
    raw_path: String,
    length: usize,
) -> (r: Result<V2Item, EmbedError>)
    requires
        *old(cursor) <= chars.len(),
        total == utf8_len(chars@),
        *old(byte_cursor) == utf8_len(chars@.take(*old(cursor) as int)),
    ensures
        match (r, v2_contents(chars@, *old(cursor) as int, raw_path@, length as nat)) {
            (Err(e), SpecV2Step::Stop(se)) => e@ == se,
            (Ok(item), SpecV2Step::Next { cursor: c, entry, binary }) => {
                &&& *final(cursor) == c
                &&& *final(byte_cursor) == utf8_len(chars@.take(c))
                &&& match item {
                    V2Item::Blank => entry is None && !binary,
                    V2Item::Binary => entry is None && binary,
                    V2Item::File(f) => entry == Some(f@) && !binary,
                }
            },
            _ => false,
        },
{
    let ghost s = chars@;
    let n = chars.len();
    proof {
        lemma_utf8_len_prefix(s, *cursor as int, n as int);
        assert(s.take(n as int) == s);
    }
    if length > total - *byte_cursor {
        return Err(EmbedError::ShortContent { path: raw_path });
    }
    let end = match content_end(chars, *cursor, length) {
        Some(e) => e,
        None => return Err(EmbedError::SplitCharacter { path: raw_path }),
    };
    proof {
        lemma_char_end(s, *cursor as int, length as nat);
        lemma_utf8_len_prefix(s, *cursor as int, end as int);
        lemma_utf8_len_prefix(s, end as int, n as int);
    }
    let relative_path = match safe_relative_path(raw_path.as_str()) {
        Ok((path, _)) => path,
        Err(error) => return Err(EmbedError::Path(error)),
    };
    let contents = string_of_range(chars, *cursor, end);
    *byte_cursor = *byte_cursor + length;
    *cursor = end;
    match consume_entry_separator(chars, cursor, raw_path.as_str()) {
        Ok(()) => {},
        Err(e) => return Err(e),
    }
    proof {
        lemma_utf8_len_prefix(s, end as int, *cursor as int);
        lemma_utf8_len_prefix(s, *cursor as int, n as int);
        if *cursor > end {
            assert(utf8_len(s.subrange(end as int, *cursor as int)) == *cursor - end) by {
                assert(utf8_width('\n') == 1);
                assert(utf8_width('\r') == 1);
                let t = s.subrange(end as int, *cursor as int);
                if *cursor == end + 1 {
                    assert(t == seq![s[end as int]]);
                    lemma_utf8_len_single(s[end as int]);
                } else {
                    assert(t == seq![s[end as int]] + seq![s[end + 1]]);
                    lemma_utf8_len_single(s[end as int]);
                    lemma_utf8_len_single(s[end + 1]);
                    lemma_utf8_len_concat(seq![s[end as int]], seq![s[end + 1]]);
                }
            }
        } else {
            assert(s.subrange(end as int, *cursor as int) == Seq::<char>::empty());
        }
    }
    *byte_cursor = *byte_cursor + (*cursor - end);
    Ok(V2Item::File(FileEntry { relative_path, contents }))
}

/// Reads a bundle in the current format: a marker line, then for each file
/// a header line, a line with the content length in UTF-8 bytes, the exact
/// contents and a line break; a skipped binary file has a marker line in
/// place of the length and no contents.
pub fn parse_v2(document: &str) -> (r: Result<ParsedDocument, EmbedError>)
    ensures
        document_result(r) == parse_v2_spec(document@),
{
    let total = byte_length(document);
    let chars = chars_of(document);
    read_v2(&chars, total)
}

/// `parse_v2` on the characters of a bundle of `total` bytes.
fn read_v2(chars: &Vec<char>, total: usize) -> (r: Result<ParsedDocument, EmbedError>)
    requires
        total == utf8_len(chars@),
    ensures
        document_result(r) == parse_v2_spec(chars@),
{
    let ghost s = chars@;
    let n = chars.len();
    assert(s.subrange(0, n as int) == s);
    let mut cursor: usize = 0;
    let (ma, mb) = match take_line(chars, &mut cursor) {
        Ok(bounds) => bounds,
        Err(e) => return Err(e),
    };
    if !range_eq_str(chars, ma, mb, crate::extractor::FORMAT_MARKER) && !range_eq_str(
        chars,
        ma,
        mb,
        crate::extractor::PREVIOUS_FORMAT_MARKER,
    ) {
        return Err(EmbedError::UnsupportedFormat);
    }
    let ghost first = cursor as int;
    proof {
        lemma_utf8_len_prefix(s, cursor as int, n as int);
        assert(s.take(n as int) == s);
    }
    let mut byte_cursor = utf8_len_range(chars, 0, cursor);
    assert(s.subrange(0, cursor as int) == s.take(cursor as int));
    let mut files: Vec<FileEntry> = Vec::new();
    let mut binary_files_skipped: usize = 0;
    assert(entries_view(files@) == Seq::<SpecEntry>::empty());
    while cursor < n
        invariant
            s == chars@,
            n == s.len(),
            total == utf8_len(s),
            cursor <= n,
            binary_files_skipped <= cursor,
            byte_cursor == utf8_len(s.take(cursor as int)),
            parse_v2_spec(s) == v2_entries(s, first, Seq::empty(), 0),
            v2_entries(s, cursor as int, entries_view(files@), binary_files_skipped as nat)
                == v2_entries(s, first, Seq::empty(), 0),
        decreases n - cursor,
    {
        proof {
            lemma_v2_step_advances(s, cursor as int);
        }
        let ghost before = entries_view(files@);
        match read_v2_entry(chars, &mut cursor, &mut byte_cursor, total) {
            Ok(V2Item::Blank) => {},
            Ok(V2Item::Binary) => {
                binary_files_skipped += 1;
            },
            Ok(V2Item::File(entry)) => {
                files.push(entry);
                assert(entries_view(files@) == before.push(entry@));
            },
            Err(e) => return Err(e),
        }
    }
    Ok(ParsedDocument { files, binary_files_skipped, legacy_format: false })
}

/// `l` without its trailing `\r` and `\n` characters.
pub open spec fn trim_end_newlines(l: Seq<char>) -> Seq<char>
    decreases l.len(),
{
    if l.len() > 0 && (l.last() == '\r' || l.last() == '\n') {
        trim_end_newlines(l.drop_last())
    } else {
        l
    }
}

/// A file header of a version 1 bundle: where its line starts, where the
/// contents after it start, and the path it names.
pub struct SpecHeader {
    pub start: int,
    pub content_start: int,
    pub raw: Seq<char>,
}

/// The file headers among the lines of `s` from `p` on.
pub open spec fn legacy_headers(s: Seq<char>, p: int) -> Seq<SpecHeader>
    decreases s.len() - p,
{
    if p < 0 || p >= s.len() {
        Seq::empty()
    } else {
        let nx = next_line_start(s, p);
        proof {
            lemma_find_from(s, p, '\n');
        }
        match header_path(trim_end_newlines(s.subrange(p, nx))) {
            Some(raw) => seq![SpecHeader { start: p, content_start: nx, raw }] + legacy_headers(
                s,
                nx,
            ),
            None => legacy_headers(s, nx),
        }
    }
}

/// Headers come in order, each inside `s`, and the contents of one end
/// before the next starts.
pub open spec fn headers_ordered(s: Seq<char>, hs: Seq<SpecHeader>, p: int) -> bool {
    &&& forall|i: int| 0 <= i < hs.len() ==> p <= #[trigger] hs[i].start < hs[i].content_start <= s.len()
    &&& forall|i: int| 0 <= i < hs.len() - 1 ==> (#[trigger] hs[i]).content_start <= hs[i + 1].start
    &&& forall|i: int| 0 <= i < hs.len() ==> (#[trigger] hs[i]).content_start <= s.len()
}

pub proof fn lemma_legacy_headers_ordered(s: Seq<char>, p: int)
    requires
        0 <= p <= s.len(),
    ensures
        headers_ordered(s, legacy_headers(s, p), p),
    decreases s.len() - p,
{
    if p < s.len() {
        lemma_find_from(s, p, '\n');
        let nx = next_line_start(s, p);
        lemma_legacy_headers_ordered(s, nx);
        let rest = legacy_headers(s, nx);
        match header_path(trim_end_newlines(s.subrange(p, nx))) {
            Some(raw) => {
                let hs = seq![SpecHeader { start: p, content_start: nx, raw }] + rest;
                assert forall|i: int| 0 <= i < hs.len() - 1 implies (#[trigger] hs[i]).content_start
                    <= hs[i + 1].start by {
                    if i > 0 {
                        assert(hs[i] == rest[i - 1]);
                        assert(hs[i + 1] == rest[i]);
                    } else {
                        assert(hs[1] == rest[0]);
                    }
                }
                assert forall|i: int| 0 <= i < hs.len() implies p <= #[trigger] hs[i].start
                    < hs[i].content_start <= s.len() by {
                    if i > 0 {
                        assert(hs[i] == rest[i - 1]);
                    }
                }
                assert forall|i: int| 0 <= i < hs.len() implies (#[trigger] hs[i]).content_start
                    <= s.len() by {
                    if i > 0 {
                        assert(hs[i] == rest[i - 1]);
                    }
                }
            },
            None => {},
        }
    }
}

/// Where the contents after header `i` end: at the next header, or at the
/// end of `s`.
pub open spec fn legacy_content_end(s: Seq<char>, hs: Seq<SpecHeader>, i: int) -> int {
    if i + 1 < hs.len() {
        hs[i + 1].start
    } else {
        s.len() as int
    }
}

/// The contents after header `i`, without the blank line that separates
/// entries.
pub open spec fn legacy_contents(s: Seq<char>, hs: Seq<SpecHeader>, i: int) -> Seq<char> {
    let framed = s.subrange(hs[i].content_start, legacy_content_end(s, hs, i));
    if framed.len() > 0 && framed.last() == '\n' {
        framed.drop_last()
    } else {
        framed
    }
}

/// The entries of a version 1 bundle from header `i` on, after `files` and
/// `binary` skipped files have been read.
pub open spec fn legacy_entries(
    s: Seq<char>,
    hs: Seq<SpecHeader>,
    i: int,
    files: Seq<SpecEntry>,
    binary: nat,
) -> Result<SpecDocument, SpecEmbedError>
    decreases hs.len() - i,
{
    if i < 0 || i >= hs.len() {
        Ok(SpecDocument { files, binary_files_skipped: binary, legacy_format: true })
    } else {
        match legacy_item(s, hs, i) {
            Err(e) => Err(e),
            Ok(None) => legacy_entries(s, hs, i + 1, files, binary + 1),
            Ok(Some(entry)) => legacy_entries(s, hs, i + 1, files.push(entry), binary),
        }
    }
}

/// The file after header `i` of a version 1 bundle, `None` for a skipped
/// binary file.
pub open spec fn legacy_item(s: Seq<char>, hs: Seq<SpecHeader>, i: int) -> Result<
    Option<SpecEntry>,
    SpecEmbedError,
> {
    let contents = legacy_contents(s, hs, i);
    if trim_end_newlines(contents) == crate::extractor::BINARY_MARKER@ {
        Ok(None)
    } else {
        // Version 1 had no length metadata, so it cannot tell an empty
        // file from a file holding one line break: it is read as empty.
        let kept = if contents == seq!['\n'] {
            Seq::empty()
        } else {
            contents
        };
        match safe_relative_path_spec(hs[i].raw) {
            Err(pe) => Err(SpecEmbedError::Path(pe)),
            Ok((rel, _)) => Ok(Some(SpecEntry { path: rel, contents: kept })),
        }
    }
}

/// What `parse_legacy` returns for the bundle `s`.
pub open spec fn parse_legacy_spec(s: Seq<char>) -> Result<SpecDocument, SpecEmbedError> {
    let hs = legacy_headers(s, 0);
    if hs.len() == 0 {
        Err(SpecEmbedError::NoHeaders)
    } else if trim(s.take(hs[0].start)).len() != 0 {
        Err(SpecEmbedError::TextBeforeFirstHeader)
    } else {
        legacy_entries(s, hs, 0, Seq::empty(), 0)
    }
}

/// Bounds of `trim_end_newlines(chars[from..to])`.
fn trim_end_newlines_bound(chars: &Vec<char>, from: usize, to: usize) -> (e: usize)
    requires
        from <= to <= chars.len(),
    ensures
        from <= e <= to,
        chars@.subrange(from as int, e as int) == trim_end_newlines(
            chars@.subrange(from as int, to as int),
        ),
{
    let mut e = to;
    while e > from && (chars[e - 1] == '\r' || chars[e - 1] == '\n')
        invariant
            from <= e <= to <= chars.len(),
            trim_end_newlines(chars@.subrange(from as int, e as int)) == trim_end_newlines(
                chars@.subrange(from as int, to as int),
            ),
        decreases e,
    {
        assert(chars@.subrange(from as int, e as int).drop_last() == chars@.subrange(
            from as int,
            e - 1,
        ));
        e -= 1;
    }
    e
}

pub open spec fn headers_view(s: Seq<char>, v: Seq<(usize, usize, usize, usize)>) -> Seq<
    SpecHeader,
> {
    v.map_values(
        |h: (usize, usize, usize, usize)|
            SpecHeader {
                start: h.0 as int,
                content_start: h.1 as int,
                raw: s.subrange(h.2 as int, h.3 as int),
            },
    )
}

/// The file headers of a version 1 bundle, as (line start, contents start,
/// path start, path end).
#[verifier::spinoff_prover]
fn find_legacy_headers(chars: &Vec<char>) -> (r: Vec<(usize, usize, usize, usize)>)
    ensures
        headers_view(chars@, r@) == legacy_headers(chars@, 0),
        forall|i: int| 0 <= i < r.len() ==> #[trigger] r@[i].2 <= r@[i].3 <= chars.len(),
{
    let ghost s = chars@;
    let n = chars.len();
    let mut headers: Vec<(usize, usize, usize, usize)> = Vec::new();
    let mut p: usize = 0;
    while p < n
        invariant
            s == chars@,
            n == s.len(),
            p <= n,
            headers_view(s, headers@) + legacy_headers(s, p as int) == legacy_headers(s, 0),
            forall|i: int| 0 <= i < headers.len() ==> #[trigger] headers@[i].2 <= headers@[i].3 <= n,
        decreases n - p,
    {
        proof {
            lemma_find_from(s, p as int, '\n');
        }
        let e = find_char(chars, p, '\n');
        let nx = if e < n {
            e + 1
        } else {
            n
        };
        let t = trim_end_newlines_bound(chars, p, nx);
        let ghost before = headers_view(s, headers@);
        let ghost old_headers = headers@;
        match header_bounds(chars, p, t) {
            Some((a, b)) => {
                assert(a <= b <= n);
                headers.push((p, nx, a, b));
                assert(headers@ == old_headers.push((p, nx, a, b)));
                assert forall|i: int| 0 <= i < headers.len() implies #[trigger] headers@[i].2 <= headers@[i].3 <= n by {
                    if i < old_headers.len() {
                        assert(headers@[i] == old_headers[i]);
                    } else {
                        assert(headers@[i] == (p, nx, a, b));
                    }
                }
                assert(headers_view(s, headers@) == before.push(
                    SpecHeader { start: p as int, content_start: nx as int, raw: s.subrange(a as int, b as int) },
                ));
                assert(before.push(
                    SpecHeader { start: p as int, content_start: nx as int, raw: s.subrange(a as int, b as int) },
                ) + legacy_headers(s, nx as int) == before + legacy_headers(s, p as int));
            },
            None => {},
        }
        p = nx;
    }
    assert(legacy_headers(s, n as int) == Seq::<SpecHeader>::empty());
    assert(headers_view(s, headers@) + Seq::<SpecHeader>::empty() == headers_view(s, headers@));
    headers
}

/// Reads the file after header `index` of a version 1 bundle; `None` for a
/// skipped binary file.
fn read_legacy_entry(chars: &Vec<char>, headers: &Vec<(usize, usize, usize, usize)>, index: usize) -> (r:
    Result<Option<FileEntry>, EmbedError>)
    requires
        headers_view(chars@, headers@) == legacy_headers(chars@, 0),
        headers_ordered(chars@, legacy_headers(chars@, 0), 0),
        forall|i: int| 0 <= i < headers.len() ==> #[trigger] headers@[i].2 <= headers@[i].3 <= chars.len(),
        index < headers.len(),
    ensures
        match (r, legacy_item(chars@, legacy_headers(chars@, 0), index as int)) {
            (Err(e), Err(se)) => e@ == se,
            (Ok(None), Ok(None)) => true,
            (Ok(Some(f)), Ok(Some(sf))) => f@ == sf,
            _ => false,
        },
{
    let ghost s = chars@;
    let ghost hs = legacy_headers(s, 0);
    let n = chars.len();
        let (_, content_start, ra, rb) = headers[index];
        assert(hs[index as int].content_start == content_start);
        let content_end = if index + 1 < headers.len() {
            assert(hs[index + 1].start == headers@[index + 1].0);
            headers[index + 1].0
        } else {
            n
        };
        assert(content_end == legacy_content_end(s, hs, index as int));
        assert(content_start <= content_end <= n) by {
            assert(hs[index as int].content_start <= s.len());
            if index + 1 < headers.len() {
                assert(hs[index as int].content_start <= hs[index + 1].start);
            }
        }
        let mut end = content_end;
        if end > content_start && chars[end - 1] == '\n' {
            end -= 1;
        }
        assert(s.subrange(content_start as int, end as int) == legacy_contents(s, hs, index as int));
        let t = trim_end_newlines_bound(chars, content_start, end);
        if range_eq_str(chars, content_start, t, crate::extractor::BINARY_MARKER) {
            return Ok(None);
        }
        let contents = if end > content_start && end - content_start == 1 && chars[content_start] == '\n' {
            assert(s.subrange(content_start as int, end as int) == seq!['\n']);
            String::new()
        } else {
            proof {
                if s.subrange(content_start as int, end as int) == seq!['\n'] {
                    assert(s.subrange(content_start as int, end as int)[0] == s[content_start as int]);
                }
            }
            string_of_range(chars, content_start, end)
        };
        let raw_path = string_of_range(chars, ra, rb);
        assert(raw_path@ == hs[index as int].raw);
        let relative_path = match safe_relative_path(raw_path.as_str()) {
            Ok((path, _)) => path,
            Err(error) => return Err(EmbedError::Path(error)),
        };
        Ok(Some(FileEntry { relative_path, contents }))
}

/// Reads a bundle in the first format, which has a header line before each
/// file's contents and a blank line after them, but no length.
pub fn parse_legacy(document: &str) -> (r: Result<ParsedDocument, EmbedError>)
    ensures
        document_result(r) == parse_legacy_spec(document@),
{
    let chars = chars_of(document);
    read_legacy(&chars)
}

/// `parse_legacy` on the characters of a bundle.
fn read_legacy(chars: &Vec<char>) -> (r: Result<ParsedDocument, EmbedError>)
    ensures
        document_result(r) == parse_legacy_spec(chars@),
{
    let ghost s = chars@;
    let n = chars.len();
    let headers = find_legacy_headers(chars);
    let ghost hs = legacy_headers(s, 0);
    proof {
        lemma_legacy_headers_ordered(s, 0);
    }
    if headers.len() == 0 {
        return Err(EmbedError::NoHeaders);
    }
    assert(hs[0].start == headers@[0].0);
    let (ta, tb) = trim_bounds(chars, 0, headers[0].0);
    assert(s.subrange(0, headers@[0].0 as int) == s.take(hs[0].start));
    if ta != tb {
        return Err(EmbedError::TextBeforeFirstHeader);
    }
    let mut files: Vec<FileEntry> = Vec::new();
    let mut binary_files_skipped: usize = 0;
    let mut index: usize = 0;
    assert(entries_view(files@) == Seq::<SpecEntry>::empty());
    while index < headers.len()
        invariant
            s == chars@,
            n == s.len(),
            hs == legacy_headers(s, 0),
            headers_view(s, headers@) == hs,
            headers_ordered(s, hs, 0),
            forall|i: int| 0 <= i < headers.len() ==> #[trigger] headers@[i].2 <= headers@[i].3 <= n,
            index <= headers.len(),
            binary_files_skipped <= index,
            parse_legacy_spec(s) == legacy_entries(s, hs, 0, Seq::empty(), 0),
            legacy_entries(s, hs, index as int, entries_view(files@), binary_files_skipped as nat)
                == legacy_entries(s, hs, 0, Seq::empty(), 0),
        decreases headers.len() - index,
    {
        let ghost before = entries_view(files@);
        match read_legacy_entry(chars, &headers, index) {
            Err(e) => return Err(e),
            Ok(None) => {
                binary_files_skipped += 1;
            },
            Ok(Some(entry)) => {
                files.push(entry);
                assert(entries_view(files@) == before.push(entry@));
            },
        }
        index += 1;
    }
    Ok(ParsedDocument { files, binary_files_skipped, legacy_format: true })
}

/// `c` names something inside the folder `a`: it starts with `a` and `/`.
pub open spec fn is_folder_of(a: Seq<char>, c: Seq<char>) -> bool {
    c.len() > a.len() && c.take(a.len() as int) == a && c[a.len() as int] == '/'
}

/// Keys `a` and `c` are neighbours in sorted order and `a` is a folder of
/// `c`: this is the conflict that validation reports.
pub open spec fn adjacent_conflict(keys: Seq<Seq<char>>, a: int, c: int) -> bool {
    &&& 0 <= a < keys.len()
    &&& 0 <= c < keys.len()
    &&& is_folder_of(keys[a], keys[c])
    &&& forall|b: int|
        0 <= b < keys.len() ==> !(lex_lt(keys[a], #[trigger] keys[b]) && lex_lt(keys[b], keys[c]))
}

pub open spec fn has_conflict(keys: Seq<Seq<char>>) -> bool {
    exists|a: int, c: int| adjacent_conflict(keys, a, c)
}

/// Key `a` has a conflict and comes first among the keys with one.
pub open spec fn is_first_conflict(keys: Seq<Seq<char>>, a: int) -> bool {
    &&& exists|c: int| #[trigger] adjacent_conflict(keys, a, c)
    &&& forall|a2: int, c2: int| #[trigger] adjacent_conflict(keys, a2, c2) ==> lex_le(keys[a], keys[a2])
}

/// The key of the first conflict in sorted order.
pub open spec fn first_conflict_key(keys: Seq<Seq<char>>) -> Seq<char> {
    let a = choose|a: int| #[trigger] is_first_conflict(keys, a);
    keys[a]
}

/// The keys of `files[j..]` added to `keys`, or the first refused path or
/// duplicate key.
pub open spec fn entry_keys(files: Seq<SpecEntry>, j: int, keys: Seq<Seq<char>>) -> Result<
    Seq<Seq<char>>,
    SpecEmbedError,
>
    decreases files.len() - j,
{
    if j < 0 || j >= files.len() {
        Ok(keys)
    } else {
        match safe_relative_path_spec(files[j].path) {
            Err(e) => Err(SpecEmbedError::Path(e)),
            Ok((_, k)) => if keys.contains(k) {
                Err(SpecEmbedError::DuplicatePath { path: files[j].path })
            } else {
                entry_keys(files, j + 1, keys.push(k))
            },
        }
    }
}

/// What `validate_entries` returns for `doc`.
pub open spec fn validate_spec(doc: SpecDocument) -> Result<SpecDocument, SpecEmbedError> {
    match entry_keys(doc.files, 0, Seq::empty()) {
        Err(e) => Err(e),
        Ok(keys) => if has_conflict(keys) {
            Err(SpecEmbedError::FileFolderConflict { key: first_conflict_key(keys) })
        } else {
            Ok(doc)
        },
    }
}

pub open spec fn distinct_keys(keys: Seq<Seq<char>>) -> bool {
    forall|x: int, y: int| 0 <= x < y < keys.len() ==> keys[x] != keys[y]
}

/// Validation collects keys that are pairwise distinct.
pub proof fn lemma_distinct_keys(files: Seq<SpecEntry>, j: int, keys: Seq<Seq<char>>)
    requires
        distinct_keys(keys),
    ensures
        entry_keys(files, j, keys) matches Ok(ks) ==> distinct_keys(ks),
    decreases files.len() - j,
{
    if 0 <= j < files.len() {
        if let Ok((_, k)) = safe_relative_path_spec(files[j].path) {
            if !keys.contains(k) {
                assert forall|x: int, y: int| 0 <= x < y < keys.push(k).len() implies keys.push(k)[x]
                    != keys.push(k)[y] by {
                    if y == keys.len() {
                        assert(keys.push(k)[x] == keys[x]);
                    }
                }
                lemma_distinct_keys(files, j + 1, keys.push(k));
            }
        }
    }
}

proof fn lemma_folder_lt(a: Seq<char>, c: Seq<char>)
    requires
        is_folder_of(a, c),
    ensures
        lex_lt(a, c),
    decreases a.len(),
{
    if a.len() > 0 {
        assert(c[0] == c.take(a.len() as int)[0]);
        assert(is_folder_of(a.drop_first(), c.drop_first())) by {
            assert(c.drop_first().take(a.len() - 1) == c.take(a.len() as int).drop_first());
            assert(c.drop_first()[a.len() - 1] == c[a.len() as int]);
        }
        lemma_folder_lt(a.drop_first(), c.drop_first());
    }
}

/// Keys at increasing positions of a sort of distinct keys increase.
proof fn lemma_sorted_strict(ks: Seq<Seq<char>>, order: Seq<usize>, q1: int, q2: int)
    requires
        crate::order::stable_sorted(ks, order),
        distinct_keys(ks),
        0 <= q1 < q2 < order.len(),
    ensures
        lex_lt(ks[order[q1] as int], ks[order[q2] as int]),
{
    assert(lex_le(ks[order[q1] as int], ks[order[q2] as int]));
    assert(order[q1] != order[q2]);
    if order[q1] < order[q2] {
        assert(ks[order[q1] as int] != ks[order[q2] as int]);
    } else {
        assert(ks[order[q2] as int] != ks[order[q1] as int]);
    }
}

proof fn lemma_position(order: Seq<usize>, n: int, x: int) -> (q: int)
    requires
        0 <= x < n,
        forall|y: int| 0 <= y < n ==> #[trigger] crate::order::lists(order, y),
    ensures
        0 <= q < order.len(),
        order[q] == x,
{
    assert(crate::order::lists(order, x));
    choose|a: int| 0 <= a < order.len() && #[trigger] order[a] == x
}

proof fn lemma_lt_asymmetric(x: Seq<char>, y: Seq<char>)
    requires
        lex_lt(x, y),
    ensures
        !lex_le(y, x),
{
    if lex_le(y, x) {
        crate::order::lemma_lex_antisymmetric(x, y);
    }
}

/// A conflict is always between neighbours in sorted order.
proof fn lemma_conflict_adjacent(ks: Seq<Seq<char>>, order: Seq<usize>, a: int, c: int) -> (q: int)
    requires
        crate::order::stable_sorted(ks, order),
        distinct_keys(ks),
        adjacent_conflict(ks, a, c),
    ensures
        0 <= q < order.len() - 1,
        order[q] == a,
        order[q + 1] == c,
{
    let qa = lemma_position(order, ks.len() as int, a);
    let qc = lemma_position(order, ks.len() as int, c);
    lemma_folder_lt(ks[a], ks[c]);
    if qc < qa {
        lemma_sorted_strict(ks, order, qc, qa);
        lemma_lt_asymmetric(ks[a], ks[c]);
    }
    if qc == qa {
        assert(false);
    }
    if qc > qa + 1 {
        lemma_sorted_strict(ks, order, qa, qa + 1);
        lemma_sorted_strict(ks, order, qa + 1, qc);
        let b = order[qa + 1] as int;
        assert(!(lex_lt(ks[a], ks[b]) && lex_lt(ks[b], ks[c])));
    }
    qa
}

proof fn lemma_first_conflict(ks: Seq<Seq<char>>, order: Seq<usize>, p: int)
    requires
        crate::order::stable_sorted(ks, order),
        distinct_keys(ks),
        0 <= p < order.len() - 1,
        is_folder_of(ks[order[p] as int], ks[order[p + 1] as int]),
        forall|q: int| 0 <= q < p ==> !is_folder_of(#[trigger] ks[order[q] as int], ks[order[q + 1] as int]),
    ensures
        has_conflict(ks),
        first_conflict_key(ks) == ks[order[p] as int],
{
    let a = order[p] as int;
    let c = order[p + 1] as int;
    assert forall|b: int| 0 <= b < ks.len() implies !(lex_lt(ks[a], #[trigger] ks[b]) && lex_lt(ks[b], ks[c])) by {
        let qb = lemma_position(order, ks.len() as int, b);
        if qb < p {
            lemma_sorted_strict(ks, order, qb, p);
            if lex_lt(ks[a], ks[b]) {
                lemma_lt_asymmetric(ks[b], ks[a]);
            }
        } else if qb > p + 1 {
            lemma_sorted_strict(ks, order, p + 1, qb);
            if lex_lt(ks[b], ks[c]) {
                lemma_lt_asymmetric(ks[c], ks[b]);
            }
        }
    }
    assert(adjacent_conflict(ks, a, c));
    assert forall|a2: int, c2: int| adjacent_conflict(ks, a2, c2) implies lex_le(ks[a], ks[a2]) by {
        let q = lemma_conflict_adjacent(ks, order, a2, c2);
        if q < p {
            assert(is_folder_of(ks[order[q] as int], ks[order[q + 1] as int]));
        } else if q > p {
            lemma_sorted_strict(ks, order, p, q);
        } else {
            crate::order::lemma_lex_reflexive(ks[a]);
        }
    }
    assert(is_first_conflict(ks, a));
    let a1 = choose|a1: int| #[trigger] is_first_conflict(ks, a1);
    let c1 = choose|c1: int| #[trigger] adjacent_conflict(ks, a1, c1);
    assert(lex_le(ks[a1], ks[a]));
    assert(lex_le(ks[a], ks[a1]));
    crate::order::lemma_lex_antisymmetric(ks[a1], ks[a]);
}

proof fn lemma_no_conflict(ks: Seq<Seq<char>>, order: Seq<usize>)
    requires
        crate::order::stable_sorted(ks, order),
        distinct_keys(ks),
        forall|q: int| 0 <= q < order.len() - 1 ==> !is_folder_of(#[trigger] ks[order[q] as int], ks[order[q + 1] as int]),
    ensures
        !has_conflict(ks),
{
    if has_conflict(ks) {
        let (a, c) = choose|a: int, c: int| adjacent_conflict(ks, a, c);
        let q = lemma_conflict_adjacent(ks, order, a, c);
        assert(is_folder_of(ks[order[q] as int], ks[order[q + 1] as int]));
    }
}

/// `a` and `b` hold the same characters.
pub fn chars_eq(a: &Vec<char>, b: &Vec<char>) -> (r: bool)
    ensures
        r == (a@ == b@),
{
    if a.len() != b.len() {
        return false;
    }
    let mut i: usize = 0;
    while i < a.len()
        invariant
            i <= a.len() == b.len(),
            forall|j: int| 0 <= j < i ==> a@[j] == b@[j],
        decreases a.len() - i,
    {
        if a[i] != b[i] {
            return false;
        }
        i += 1;
    }
    assert(a@ == b@);
    true
}

/// `c` starts with `a` followed by `/`.
fn folder_prefix(a: &Vec<char>, c: &Vec<char>) -> (r: bool)
    ensures
        r == is_folder_of(a@, c@),
{
    if c.len() <= a.len() {
        return false;
    }
    let mut i: usize = 0;
    while i < a.len()
        invariant
            i <= a.len() < c.len(),
            forall|j: int| 0 <= j < i ==> a@[j] == c@[j],
        decreases a.len() - i,
    {
        if a[i] != c[i] {
            assert(c@.take(a.len() as int)[i as int] != a@[i as int]);
            return false;
        }
        i += 1;
    }
    assert(c@.take(a.len() as int) == a@);
    c[a.len()] == '/'
}

/// Some key in `keys` equals `key`.
fn contains_key(keys: &Vec<Vec<char>>, key: &Vec<char>) -> (r: bool)
    ensures
        r == crate::order::keys_view(keys@).contains(key@),
{
    let ghost ks = crate::order::keys_view(keys@);
    let mut i: usize = 0;
    while i < keys.len()
        invariant
            i <= keys.len(),
            ks == crate::order::keys_view(keys@),
            forall|m: int| 0 <= m < i ==> ks[m] != key@,
        decreases keys.len() - i,
    {
        if chars_eq(&keys[i], key) {
            assert(ks[i as int] == key@);
            return true;
        }
        i += 1;
    }
    false
}

/// The keys of all entries, or the first refused path or duplicate key.
fn collect_keys(files: &Vec<FileEntry>) -> (r: Result<Vec<Vec<char>>, EmbedError>)
    ensures
        match (r, entry_keys(entries_view(files@), 0, Seq::empty())) {
            (Ok(keys), Ok(ks)) => crate::order::keys_view(keys@) == ks,
            (Err(e), Err(se)) => e@ == se,
            _ => false,
        },
{
    let ghost fs = entries_view(files@);
    let mut keys: Vec<Vec<char>> = Vec::new();
    let mut j: usize = 0;
    assert(crate::order::keys_view(keys@) == Seq::<Seq<char>>::empty());
    while j < files.len()
        invariant
            j <= files.len(),
            fs == entries_view(files@),
            entry_keys(fs, j as int, crate::order::keys_view(keys@)) == entry_keys(fs, 0, Seq::empty()),
        decreases files.len() - j,
    {
        let ghost ks = crate::order::keys_view(keys@);
        assert(fs[j as int] == files@[j as int]@);
        let key = match safe_relative_path(files[j].relative_path.as_str()) {
            Ok((_, key)) => chars_of(key.as_str()),
            Err(error) => return Err(EmbedError::Path(error)),
        };
        if contains_key(&keys, &key) {
            return Err(EmbedError::DuplicatePath { path: files[j].relative_path.clone() });
        }
        assert(!ks.contains(key@));
        keys.push(key);
        assert(crate::order::keys_view(keys@) == ks.push(key@));
        j += 1;
    }
    Ok(keys)
}

/// Checks that no two entries have the same case-folded path and that no
/// entry is also the folder of another entry, comparing neighbouring keys in
/// sorted order.
pub fn validate_entries(parsed: ParsedDocument) -> (r: Result<ParsedDocument, EmbedError>)
    ensures
        document_result(r) == validate_spec(parsed@),
{
    let keys = match collect_keys(&parsed.files) {
        Ok(keys) => keys,
        Err(e) => return Err(e),
    };
    let ghost ks = crate::order::keys_view(keys@);
    proof {
        lemma_distinct_keys(entries_view(parsed.files@), 0, Seq::empty());
    }
    let order = crate::order::sorted_order(&keys);
    let n = keys.len();
    let mut p: usize = 0;
    while n > 0 && p < n - 1
        invariant
            entry_keys(entries_view(parsed.files@), 0, Seq::empty()) == Ok::<Seq<Seq<char>>, SpecEmbedError>(ks),
            n == keys.len() == ks.len(),
            ks == crate::order::keys_view(keys@),
            crate::order::stable_sorted(ks, order@),
            distinct_keys(ks),
            p < n || n == 0,
            forall|q: int| 0 <= q < p ==> !is_folder_of(#[trigger] ks[order@[q] as int], ks[order@[q + 1] as int]),
        decreases n - p,
    {
        let a = order[p];
        let c = order[p + 1];
        assert(ks[a as int] == keys@[a as int]@);
        assert(ks[c as int] == keys@[c as int]@);
        if folder_prefix(&keys[a], &keys[c]) {
            proof {
                lemma_first_conflict(ks, order@, p as int);
            }
            return Err(EmbedError::FileFolderConflict { key: string_of(keys[a].as_slice()) });
        }
        p += 1;
    }
    proof {
        lemma_no_conflict(ks, order@);
    }
    Ok(parsed)
}

/// `l` without its trailing `\r` characters.
pub open spec fn trim_end_cr(l: Seq<char>) -> Seq<char>
    decreases l.len(),
{
    if l.len() > 0 && l.last() == '\r' {
        trim_end_cr(l.drop_last())
    } else {
        l
    }
}

/// The first line of `s` without line break and trailing `\r`.
pub open spec fn first_line(s: Seq<char>) -> Seq<char> {
    trim_end_cr(s.subrange(0, find_from(s, 0, '\n')))
}

/// What `parse_document` returns for the bundle text `s`: a bundle whose
/// first line is a format marker is read in the current format, any other
/// text in the first format; then its paths are validated.
pub open spec fn parse_document_spec(s: Seq<char>) -> Result<SpecDocument, SpecEmbedError> {
    let parsed = if first_line(s) == crate::extractor::FORMAT_MARKER@ || first_line(s)
        == crate::extractor::PREVIOUS_FORMAT_MARKER@ {
        parse_v2_spec(s)
    } else {
        parse_legacy_spec(s)
    };
    match parsed {
        Err(e) => Err(e),
        Ok(d) => validate_spec(d),
    }
}

/// Reads the files of a bundle.
pub fn parse_document(document: &str) -> (r: Result<ParsedDocument, EmbedError>)
    ensures
        document_result(r) == parse_document_spec(document@),
{
    let total = byte_length(document);
    let chars = chars_of(document);
    proof {
        lemma_find_from(chars@, 0, '\n');
    }
    let line_end = find_char(&chars, 0, '\n');
    let mut end = line_end;
    while end > 0 && chars[end - 1] == '\r'
        invariant
            end <= line_end <= chars.len(),
            trim_end_cr(chars@.subrange(0, end as int)) == first_line(chars@),
        decreases end,
    {
        assert(chars@.subrange(0, end as int).drop_last() == chars@.subrange(0, end - 1));
        end -= 1;
    }
    let parsed = if range_eq_str(&chars, 0, end, crate::extractor::FORMAT_MARKER) || range_eq_str(
        &chars,
        0,
        end,
        crate::extractor::PREVIOUS_FORMAT_MARKER,
    ) {
        read_v2(&chars, total)
    } else {
        read_legacy(&chars)
    };
    match parsed {
        Err(e) => Err(e),
        Ok(d) => validate_entries(d),
    }
}

} // verus!

verus! {

impl PathError {
    /// The text shown for this error.
    pub open spec fn message_spec(e: SpecPathError) -> Seq<char> {
        match e {
            SpecPathError::Empty => "a file header contains an empty path"@,
            SpecPathError::Unsafe(raw) => "unsafe file path in extracted text: '"@ + raw + "'"@,
        }
    }

    /// The text shown for this error.
    pub fn message(&self) -> (r: String)
        ensures
            r@ == Self::message_spec(self@),
    {
        match self {
            PathError::Empty => String::from_str("a file header contains an empty path"),
            PathError::Unsafe(raw) => {
                let mut out: Vec<char> = Vec::new();
                push_str(&mut out, "unsafe file path in extracted text: '");
                push_str(&mut out, raw.as_str());
                push_str(&mut out, "'");
                string_of(&out)
            },
        }
    }
}

/// `"'" + path + "'"`.
pub open spec fn quoted(path: Seq<char>) -> Seq<char> {
    "'"@ + path + "'"@
}

/// `"line <n>"`.
pub open spec fn line_label(n: nat) -> Seq<char> {
    "line "@ + decimal(n)
}

impl EmbedError {
    /// The text shown for this error.
    pub open spec fn message_spec(e: SpecEmbedError) -> Seq<char> {
        match e {
            SpecEmbedError::UnexpectedEnd => "the extracted text ends unexpectedly"@,
            SpecEmbedError::UnsupportedFormat => "this is not a supported extracted text file"@,
            SpecEmbedError::InvalidHeader { byte, header } => "invalid file header at byte "@
                + decimal(byte) + ": "@ + quoted(header),
            SpecEmbedError::MissingLength { path } => "missing content length after header for "@
                + quoted(path),
            SpecEmbedError::InvalidLength { path } => "invalid content length for "@ + quoted(path),
            SpecEmbedError::ShortContent { path } => "content for "@ + quoted(path)
                + " is shorter than its byte count"@,
            SpecEmbedError::SplitCharacter { path } => "content length for "@ + quoted(path)
                + " ends inside a UTF-8 character"@,
            SpecEmbedError::MissingSeparator { path } => "content for "@ + quoted(path)
                + " is not followed by an entry separator"@,
            SpecEmbedError::NoHeaders => "no file headers were found in the selected text file"@,
            SpecEmbedError::TextBeforeFirstHeader =>
                "unexpected text appears before the first file header"@,
            SpecEmbedError::Path(p) => PathError::message_spec(p),
            SpecEmbedError::DuplicatePath { path } => "the extracted text contains the file path "@
                + quoted(path) + " more than once"@,
            SpecEmbedError::FileFolderConflict { key } => quoted(key)
                + " cannot be both a file and a parent folder"@,
            SpecEmbedError::NotARecord { line } => line_label(line) + " must start with 'file:'"@,
            SpecEmbedError::MissingLineField { line } => line_label(line)
                + " is missing the ',line:' field"@,
            SpecEmbedError::MissingContentField { line } => line_label(line)
                + " is missing the ',new_content:' field"@,
            SpecEmbedError::EmptyTargetPath { line } => line_label(line)
                + " has an empty file path"@,
            SpecEmbedError::InvalidLineNumber { line, value } => line_label(line)
                + " has an invalid target line number "@ + quoted(value),
            SpecEmbedError::LineZero { line } => line_label(line)
                + " has target line 0; line numbers start at 1"@,
            SpecEmbedError::TargetPath { line, error } => line_label(line) + ": "@
                + PathError::message_spec(error),
            SpecEmbedError::NoRecords => "no modification records were found"@,
            SpecEmbedError::UnknownTarget { line, path } => "modification "@ + line_label(line)
                + " refers to "@ + quoted(path) + ", which is not in the bundled text"@,
            SpecEmbedError::DuplicateTarget { line_number, path } =>
                "more than one modification targets line "@ + decimal(line_number) + " of "@
                + quoted(path),
            SpecEmbedError::LineOutOfRange { line, line_number, path, line_count } =>
                "modification "@ + line_label(line) + " targets line "@ + decimal(line_number)
                + " of "@ + quoted(path) + ", but that file has "@ + decimal(line_count)
                + " line(s)"@,
        }
    }

    /// The text shown for this error.
    pub fn message(&self) -> (r: String)
        ensures
            r@ == Self::message_spec(self@),
    {
        let mut out: Vec<char> = Vec::new();
        match self {
            EmbedError::UnexpectedEnd => push_str(&mut out, "the extracted text ends unexpectedly"),
            EmbedError::UnsupportedFormat => push_str(
                &mut out,
                "this is not a supported extracted text file",
            ),
            EmbedError::InvalidHeader { byte, header } => {
                push_str(&mut out, "invalid file header at byte ");
                push_decimal(&mut out, *byte);
                push_str(&mut out, ": ");
                push_quoted(&mut out, header);
            },
            EmbedError::MissingLength { path } => {
                push_str(&mut out, "missing content length after header for ");
                push_quoted(&mut out, path);
            },
            EmbedError::InvalidLength { path } => {
                push_str(&mut out, "invalid content length for ");
                push_quoted(&mut out, path);
            },
            EmbedError::ShortContent { path } => {
                push_str(&mut out, "content for ");
                push_quoted(&mut out, path);
                push_str(&mut out, " is shorter than its byte count");
            },
            EmbedError::SplitCharacter { path } => {
                push_str(&mut out, "content length for ");
                push_quoted(&mut out, path);
                push_str(&mut out, " ends inside a UTF-8 character");
            },
            EmbedError::MissingSeparator { path } => {
                push_str(&mut out, "content for ");
                push_quoted(&mut out, path);
                push_str(&mut out, " is not followed by an entry separator");
            },
            EmbedError::NoHeaders => push_str(
                &mut out,
                "no file headers were found in the selected text file",
            ),
            EmbedError::TextBeforeFirstHeader => push_str(
                &mut out,
                "unexpected text appears before the first file header",
            ),
            EmbedError::Path(p) => {
                let m = p.message();
                push_str(&mut out, m.as_str());
            },
            EmbedError::DuplicatePath { path } => {
                push_str(&mut out, "the extracted text contains the file path ");
                push_quoted(&mut out, path);
                push_str(&mut out, " more than once");
            },
            EmbedError::FileFolderConflict { key } => {
                push_quoted(&mut out, key);
                push_str(&mut out, " cannot be both a file and a parent folder");
            },
            EmbedError::NotARecord { line } => {
                push_line_label(&mut out, *line);
                push_str(&mut out, " must start with 'file:'");
            },
            EmbedError::MissingLineField { line } => {
                push_line_label(&mut out, *line);
                push_str(&mut out, " is missing the ',line:' field");
            },
            EmbedError::MissingContentField { line } => {
                push_line_label(&mut out, *line);
                push_str(&mut out, " is missing the ',new_content:' field");
            },
            EmbedError::EmptyTargetPath { line } => {
                push_line_label(&mut out, *line);
                push_str(&mut out, " has an empty file path");
            },
            EmbedError::InvalidLineNumber { line, value } => {
                push_line_label(&mut out, *line);
                push_str(&mut out, " has an invalid target line number ");
                push_quoted(&mut out, value);
            },
            EmbedError::LineZero { line } => {
                push_line_label(&mut out, *line);
                push_str(&mut out, " has target line 0; line numbers start at 1");
            },
            EmbedError::TargetPath { line, error } => {
                push_line_label(&mut out, *line);
                push_str(&mut out, ": ");
                let m = error.message();
                push_str(&mut out, m.as_str());
            },
            EmbedError::NoRecords => push_str(&mut out, "no modification records were found"),
            EmbedError::UnknownTarget { line, path } => {
                push_str(&mut out, "modification ");
                push_line_label(&mut out, *line);
                push_str(&mut out, " refers to ");
                push_quoted(&mut out, path);
                push_str(&mut out, ", which is not in the bundled text");
            },
            EmbedError::DuplicateTarget { line_number, path } => {
                push_str(&mut out, "more than one modification targets line ");
                push_decimal(&mut out, *line_number);
                push_str(&mut out, " of ");
                push_quoted(&mut out, path);
            },
            EmbedError::LineOutOfRange { line, line_number, path, line_count } => {
                push_str(&mut out, "modification ");
                push_line_label(&mut out, *line);
                push_str(&mut out, " targets line ");
                push_decimal(&mut out, *line_number);
                push_str(&mut out, " of ");
                push_quoted(&mut out, path);
                push_str(&mut out, ", but that file has ");
                push_decimal(&mut out, *line_count);
                push_str(&mut out, " line(s)");
            },
        }
        proof {
            assert(out@ =~= Self::message_spec(self@));
        }
        string_of(&out)
    }
}

fn push_quoted(out: &mut Vec<char>, path: &String)
    ensures
        final(out)@ == old(out)@ + quoted(path@),
{
    push_str(out, "'");
    push_str(out, path.as_str());
    push_str(out, "'");
}

fn push_line_label(out: &mut Vec<char>, n: usize)
    ensures
        final(out)@ == old(out)@ + line_label(n as nat),
{
    push_str(out, "line ");
    push_decimal(out, n);
}

} // verus!
