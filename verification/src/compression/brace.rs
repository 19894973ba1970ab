//! Whitespace compaction for languages whose blocks and statements are
//! delimited independently of ordinary whitespace (C-like syntax, PHP, CSS,
//! JSON, Rust).
use vstd::prelude::*;

use crate::compression::{
    lemma_without_ws_concat, lemma_without_ws_push, lemma_without_ws_split, lemma_without_ws_step,
    without_ws,
};
use crate::compression::words::{
    collapsed, lemma_collapsed_drop_ws, lemma_collapsed_trailing_ws, lemma_collapsed_ws_run,
    lemma_literal_body_moved, lemma_moved_text, literal_body, space_if,
};
use crate::text::{chars_of, is_whitespace, is_ws, push_range, string_of};


verus! {

/// Lexical context of the brace compactor.
#[derive(Clone, Copy, Debug, PartialEq, Eq, Structural)]
pub enum State {
    Normal,
    SingleQuoted,
    DoubleQuoted,
    BacktickQuoted,
    LineComment,
    BlockComment,
    /// A Rust raw string opened with this many `#`.
    RawString(usize),
}

/// Number of consecutive `#` in `s` starting at `q`.
pub open spec fn hash_run(s: Seq<char>, q: int) -> nat
    decreases s.len() - q,
{
    if 0 <= q < s.len() && s[q] == '#' {
        1 + hash_run(s, q + 1)
    } else {
        0
    }
}

/// When `s[q..]` is `#`* followed by `"`, the number of `#`.
pub open spec fn raw_prefix(s: Seq<char>, q: int) -> Option<nat> {
    let k = hash_run(s, q);
    if q + k < s.len() && s[q + k] == '"' {
        Some(k)
    } else {
        None
    }
}

/// `s[q..q + count]` exists and consists of `#` only.
pub open spec fn hashes_at(s: Seq<char>, q: int, count: int) -> bool {
    q + count <= s.len() && forall|i: int| q <= i < q + count ==> s[i] == '#'
}

/// `out` after a pending whitespace run has been turned into one separator.
pub open spec fn separate(out: Seq<char>, pending: bool) -> Seq<char> {
    if pending && out.len() > 0 && out.last() != '\n' {
        out.push(' ')
    } else {
        out
    }
}

pub open spec fn closing_quote(state: State) -> char {
    match state {
        State::SingleQuoted => '\'',
        State::DoubleQuoted => '"',
        _ => '`',
    }
}

/// The compacted text: `out` followed by what the compactor emits for
/// `s[pos..]` when it is in `state` with the given escape and pending flags.
pub open spec fn brace_from(
    s: Seq<char>,
    pos: int,
    state: State,
    escaped: bool,
    pending: bool,
    out: Seq<char>,
) -> Seq<char>
    decreases s.len() - pos,
{
    if pos < 0 || pos >= s.len() {
        out
    } else {
        let c = s[pos];
        let next_is = |d: char| pos + 1 < s.len() && s[pos + 1] == d;
        match state {
            State::Normal => {
                if is_ws(c) {
                    brace_from(s, pos + 1, State::Normal, escaped, true, out)
                } else {
                    let o = separate(out, pending);
                    if c == '<' && pos + 2 < s.len() && s[pos + 1] == '<' && s[pos + 2] == '<' {
                        o + s.subrange(pos, s.len() as int)
                    } else if c == 'R' && raw_prefix(s, pos + 1) is Some {
                        o + s.subrange(pos, s.len() as int)
                    } else if c == 'r' && raw_prefix(s, pos + 1) is Some {
                        let h = raw_prefix(s, pos + 1)->0;
                        brace_from(
                            s,
                            pos + 2 + h,
                            State::RawString(h as usize),
                            escaped,
                            false,
                            o + s.subrange(pos, pos + 2 + h),
                        )
                    } else if c == '\'' {
                        brace_from(s, pos + 1, State::SingleQuoted, false, false, o.push(c))
                    } else if c == '"' {
                        brace_from(s, pos + 1, State::DoubleQuoted, false, false, o.push(c))
                    } else if c == '`' {
                        brace_from(s, pos + 1, State::BacktickQuoted, false, false, o.push(c))
                    } else if c == '/' && next_is('/') {
                        brace_from(
                            s,
                            pos + 2,
                            State::LineComment,
                            escaped,
                            false,
                            o + s.subrange(pos, pos + 2),
                        )
                    } else if c == '/' && next_is('*') {
                        brace_from(
                            s,
                            pos + 2,
                            State::BlockComment,
                            escaped,
                            false,
                            o + s.subrange(pos, pos + 2),
                        )
                    } else if c == '#' {
                        brace_from(s, pos + 1, State::LineComment, escaped, false, o.push(c))
                    } else {
                        brace_from(s, pos + 1, State::Normal, escaped, false, o.push(c))
                    }
                }
            },
            State::SingleQuoted | State::DoubleQuoted | State::BacktickQuoted => {
                let o = out.push(c);
                if escaped {
                    brace_from(s, pos + 1, state, false, pending, o)
                } else if c == '\\' {
                    brace_from(s, pos + 1, state, true, pending, o)
                } else if c == closing_quote(state) {
                    brace_from(s, pos + 1, State::Normal, escaped, pending, o)
                } else {
                    brace_from(s, pos + 1, state, escaped, pending, o)
                }
            },
            State::LineComment => {
                if c == '\r' {
                    let skip = if next_is('\n') {
                        2int
                    } else {
                        1int
                    };
                    brace_from(s, pos + skip, State::Normal, escaped, pending, out.push('\n'))
                } else if c == '\n' {
                    brace_from(s, pos + 1, State::Normal, escaped, pending, out.push('\n'))
                } else {
                    brace_from(s, pos + 1, State::LineComment, escaped, pending, out.push(c))
                }
            },
            State::BlockComment => {
                if c == '*' && next_is('/') {
                    brace_from(
                        s,
                        pos + 2,
                        State::Normal,
                        escaped,
                        pending,
                        out + s.subrange(pos, pos + 2),
                    )
                } else {
                    brace_from(s, pos + 1, State::BlockComment, escaped, pending, out.push(c))
                }
            },
            State::RawString(h) => {
                if c == '"' && hashes_at(s, pos + 1, h as int) {
                    brace_from(
                        s,
                        pos + 1 + h,
                        State::Normal,
                        escaped,
                        pending,
                        out + s.subrange(pos, pos + 1 + h),
                    )
                } else {
                    brace_from(s, pos + 1, state, escaped, pending, out.push(c))
                }
            },
        }
    }
}

/// What `compress` returns for `s`.
pub open spec fn brace_compressed(s: Seq<char>) -> Seq<char> {
    brace_from(s, 0, State::Normal, false, false, Seq::empty())
}

/// Collapses whitespace outside literals and comments. It always emits one
/// separator where whitespace existed, so adjacent code tokens cannot merge.
/// Newlines ending line comments are retained because removing those can turn
/// the following code into part of the comment.
pub fn compress(input: &str) -> (output: String)
    ensures
        output@ == brace_compressed(input@),
{
    let chars = chars_of(input);
    let ghost s = chars@;
    let n = chars.len();
    let mut out: Vec<char> = Vec::new();
    let mut state = State::Normal;
    let mut escaped = false;
    let mut pending_whitespace = false;
    let mut pos: usize = 0;

    while pos < n
        invariant
            s == chars@,
            s == input@,
            n == s.len(),
            pos <= n,
            brace_from(s, pos as int, state, escaped, pending_whitespace, out@)
                == brace_compressed(s),
        decreases n - pos,
    {
        let character = chars[pos];
        match state {
            State::Normal => {
                if is_whitespace(character) {
                    pending_whitespace = true;
                    pos += 1;
                    continue;
                }
                let ghost out0 = out@;
                let ghost pending0 = pending_whitespace;
                push_pending_separator(&mut out, &mut pending_whitespace);

                if character == '<' && n - pos > 2 && chars[pos + 1] == '<' && chars[pos + 2]
                    == '<' {
                    // Heredoc/nowdoc bodies are whitespace-sensitive. Keep
                    // this section and everything after it unchanged.
                    push_range(&mut out, &chars, pos, n);
                    assert(brace_from(s, pos as int, State::Normal, escaped, pending0, out0)
                        == out@);
                    return string_of(&out);
                }
                let prefix = raw_string_prefix(&chars, pos + 1);
                if character == 'R' && prefix.is_some() {
                    // C++ raw strings can use arbitrary delimiters. Keeping the
                    // remainder unchanged is safer than guessing its terminator.
                    push_range(&mut out, &chars, pos, n);
                    assert(brace_from(s, pos as int, State::Normal, escaped, pending0, out0)
                        == out@);
                    return string_of(&out);
                }
                if character == 'r' && prefix.is_some() {
                    let hash_count = prefix.unwrap();
                    push_range(&mut out, &chars, pos, pos + 2 + hash_count);
                    state = State::RawString(hash_count);
                    pos = pos + 2 + hash_count;
                    continue;
                }
                if character == '\'' {
                    out.push(character);
                    state = State::SingleQuoted;
                    escaped = false;
                    pos += 1;
                } else if character == '"' {
                    out.push(character);
                    state = State::DoubleQuoted;
                    escaped = false;
                    pos += 1;
                } else if character == '`' {
                    out.push(character);
                    state = State::BacktickQuoted;
                    escaped = false;
                    pos += 1;
                } else if character == '/' && pos + 1 < n && chars[pos + 1] == '/' {
                    push_range(&mut out, &chars, pos, pos + 2);
                    state = State::LineComment;
                    pos += 2;
                } else if character == '/' && pos + 1 < n && chars[pos + 1] == '*' {
                    push_range(&mut out, &chars, pos, pos + 2);
                    state = State::BlockComment;
                    pos += 2;
                } else if character == '#' {
                    out.push(character);
                    state = State::LineComment;
                    pos += 1;
                } else {
                    out.push(character);
                    pos += 1;
                }
            },
            State::SingleQuoted | State::DoubleQuoted | State::BacktickQuoted => {
                out.push(character);
                let closing = match state {
                    State::SingleQuoted => '\'',
                    State::DoubleQuoted => '"',
                    _ => '`',
                };
                if escaped {
                    escaped = false;
                } else if character == '\\' {
                    escaped = true;
                } else if character == closing {
                    state = State::Normal;
                }
                pos += 1;
            },
            State::LineComment => {
                if character == '\r' {
                    if pos + 1 < n && chars[pos + 1] == '\n' {
                        pos += 1;
                    }
                    out.push('\n');
                    state = State::Normal;
                } else if character == '\n' {
                    out.push('\n');
                    state = State::Normal;
                } else {
                    out.push(character);
                }
                pos += 1;
            },
            State::BlockComment => {
                if character == '*' && pos + 1 < n && chars[pos + 1] == '/' {
                    push_range(&mut out, &chars, pos, pos + 2);
                    state = State::Normal;
                    pos += 2;
                } else {
                    out.push(character);
                    pos += 1;
                }
            },
            State::RawString(hash_count) => {
                if character == '"' && next_chars_are_hashes(&chars, pos + 1, hash_count) {
                    push_range(&mut out, &chars, pos, pos + 1 + hash_count);
                    state = State::Normal;
                    pos = pos + 1 + hash_count;
                } else {
                    out.push(character);
                    pos += 1;
                }
            },
        }
    }
    string_of(&out)
}

proof fn lemma_separate_keeps_text(out: Seq<char>, pending: bool)
    ensures
        without_ws(separate(out, pending)) == without_ws(out),
{
    lemma_without_ws_push(out, ' ');
    assert(without_ws(out) + Seq::<char>::empty() == without_ws(out));
}

/// Moving `s[pos..q]` into the output keeps the whitespace-free text of
/// output and rest together.
proof fn lemma_move_range(s: Seq<char>, pos: int, q: int, out: Seq<char>)
    requires
        0 <= pos <= q <= s.len(),
    ensures
        without_ws(out + s.subrange(pos, q)) + without_ws(s.subrange(q, s.len() as int))
            == without_ws(out) + without_ws(s.subrange(pos, s.len() as int)),
{
    lemma_without_ws_concat(out, s.subrange(pos, q));
    lemma_without_ws_split(s, pos, q, s.len() as int);
}

/// Moving `s[pos]` into the output, possibly as another whitespace
/// character, keeps the whitespace-free text of output and rest together.
proof fn lemma_move_char(s: Seq<char>, pos: int, out: Seq<char>, c: char)
    requires
        0 <= pos < s.len(),
        c == s[pos] || (is_ws(c) && is_ws(s[pos])),
    ensures
        without_ws(out.push(c)) + without_ws(s.subrange(pos + 1, s.len() as int)) == without_ws(
            out,
        ) + without_ws(s.subrange(pos, s.len() as int)),
{
    lemma_without_ws_push(out, c);
    lemma_without_ws_step(s, pos);
}

/// Whatever state the compactor is in, the characters it still has to read
/// reach the output with only their whitespace changed.
pub proof fn lemma_brace_from_keeps_text(
    s: Seq<char>,
    pos: int,
    state: State,
    escaped: bool,
    pending: bool,
    out: Seq<char>,
)
    requires
        0 <= pos <= s.len(),
    ensures
        without_ws(brace_from(s, pos, state, escaped, pending, out)) == without_ws(out)
            + without_ws(s.subrange(pos, s.len() as int)),
    decreases s.len() - pos,
{
    let len = s.len() as int;
    if pos == len {
        assert(s.subrange(pos, len) == Seq::<char>::empty());
        assert(without_ws(Seq::<char>::empty()) == Seq::<char>::empty());
        assert(without_ws(out) + Seq::<char>::empty() == without_ws(out));
        return;
    }
    let c = s[pos];
    let next_is = |d: char| pos + 1 < s.len() && s[pos + 1] == d;
    match state {
        State::Normal => {
            if is_ws(c) {
                lemma_brace_from_keeps_text(s, pos + 1, State::Normal, escaped, true, out);
                lemma_without_ws_step(s, pos);
                assert(Seq::<char>::empty() + without_ws(s.subrange(pos + 1, len)) == without_ws(
                    s.subrange(pos + 1, len),
                ));
            } else {
                let o = separate(out, pending);
                lemma_separate_keeps_text(out, pending);
                if c == '<' && pos + 2 < s.len() && s[pos + 1] == '<' && s[pos + 2] == '<' {
                    lemma_without_ws_concat(o, s.subrange(pos, len));
                } else if c == 'R' && raw_prefix(s, pos + 1) is Some {
                    lemma_without_ws_concat(o, s.subrange(pos, len));
                } else if c == 'r' && raw_prefix(s, pos + 1) is Some {
                    let h = raw_prefix(s, pos + 1)->0;
                    lemma_brace_from_keeps_text(
                        s,
                        pos + 2 + h,
                        State::RawString(h as usize),
                        escaped,
                        false,
                        o + s.subrange(pos, pos + 2 + h),
                    );
                    lemma_move_range(s, pos, pos + 2 + h, o);
                } else if c == '\'' {
                    lemma_brace_from_keeps_text(s, pos + 1, State::SingleQuoted, false, false, o.push(c));
                    lemma_move_char(s, pos, o, c);
                } else if c == '"' {
                    lemma_brace_from_keeps_text(s, pos + 1, State::DoubleQuoted, false, false, o.push(c));
                    lemma_move_char(s, pos, o, c);
                } else if c == '`' {
                    lemma_brace_from_keeps_text(s, pos + 1, State::BacktickQuoted, false, false, o.push(c));
                    lemma_move_char(s, pos, o, c);
                } else if c == '/' && next_is('/') {
                    lemma_brace_from_keeps_text(s, pos + 2, State::LineComment, escaped, false, o + s.subrange(pos, pos + 2));
                    lemma_move_range(s, pos, pos + 2, o);
                } else if c == '/' && next_is('*') {
                    lemma_brace_from_keeps_text(s, pos + 2, State::BlockComment, escaped, false, o + s.subrange(pos, pos + 2));
                    lemma_move_range(s, pos, pos + 2, o);
                } else if c == '#' {
                    lemma_brace_from_keeps_text(s, pos + 1, State::LineComment, escaped, false, o.push(c));
                    lemma_move_char(s, pos, o, c);
                } else {
                    lemma_brace_from_keeps_text(s, pos + 1, State::Normal, escaped, false, o.push(c));
                    lemma_move_char(s, pos, o, c);
                }
            }
        },
        State::SingleQuoted | State::DoubleQuoted | State::BacktickQuoted => {
            let o = out.push(c);
            lemma_move_char(s, pos, out, c);
            if escaped {
                lemma_brace_from_keeps_text(s, pos + 1, state, false, pending, o);
            } else if c == '\\' {
                lemma_brace_from_keeps_text(s, pos + 1, state, true, pending, o);
            } else if c == closing_quote(state) {
                lemma_brace_from_keeps_text(s, pos + 1, State::Normal, escaped, pending, o);
            } else {
                lemma_brace_from_keeps_text(s, pos + 1, state, escaped, pending, o);
            }
        },
        State::LineComment => {
            if c == '\r' {
                lemma_move_char(s, pos, out, '\n');
                if next_is('\n') {
                    lemma_brace_from_keeps_text(s, pos + 2, State::Normal, escaped, pending, out.push('\n'));
                    lemma_without_ws_step(s, pos + 1);
                    assert(Seq::<char>::empty() + without_ws(s.subrange(pos + 2, len)) == without_ws(
                        s.subrange(pos + 2, len),
                    ));
                } else {
                    lemma_brace_from_keeps_text(s, pos + 1, State::Normal, escaped, pending, out.push('\n'));
                }
            } else if c == '\n' {
                lemma_move_char(s, pos, out, '\n');
                lemma_brace_from_keeps_text(s, pos + 1, State::Normal, escaped, pending, out.push('\n'));
            } else {
                lemma_move_char(s, pos, out, c);
                lemma_brace_from_keeps_text(s, pos + 1, State::LineComment, escaped, pending, out.push(c));
            }
        },
        State::BlockComment => {
            if c == '*' && next_is('/') {
                lemma_brace_from_keeps_text(s, pos + 2, State::Normal, escaped, pending, out + s.subrange(pos, pos + 2));
                lemma_move_range(s, pos, pos + 2, out);
            } else {
                lemma_move_char(s, pos, out, c);
                lemma_brace_from_keeps_text(s, pos + 1, State::BlockComment, escaped, pending, out.push(c));
            }
        },
        State::RawString(h) => {
            if c == '"' && hashes_at(s, pos + 1, h as int) {
                lemma_brace_from_keeps_text(s, pos + 1 + h, State::Normal, escaped, pending, out + s.subrange(pos, pos + 1 + h));
                lemma_move_range(s, pos, pos + 1 + h, out);
            } else {
                lemma_move_char(s, pos, out, c);
                lemma_brace_from_keeps_text(s, pos + 1, state, escaped, pending, out.push(c));
            }
        },
    }
}

/// Compaction only changes whitespace: removing all whitespace from the
/// compacted text gives the input with all whitespace removed.
pub proof fn lemma_compress_changes_only_whitespace(s: Seq<char>)
    ensures
        without_ws(brace_compressed(s)) == without_ws(s),
{
    lemma_brace_from_keeps_text(s, 0, State::Normal, false, false, Seq::empty());
    assert(s.subrange(0, s.len() as int) == s);
    assert(without_ws(Seq::<char>::empty()) == Seq::<char>::empty());
    assert(Seq::<char>::empty() + without_ws(s) == without_ws(s));
}

/// The separator owed for a whitespace run keeps the words apart.
proof fn lemma_separate_words(out: Seq<char>, pending: bool, rest: Seq<char>)
    ensures
        collapsed(separate(out, pending) + rest) == collapsed(out + space_if(pending) + rest),
{
    if pending && out.len() > 0 && out.last() != '\n' {
        assert(separate(out, pending) == out + seq![' ']);
    } else if pending {
        assert(crate::text::all_ws(seq![' ']));
        lemma_collapsed_drop_ws(out, seq![' '], rest);
    } else {
        assert(out + space_if(pending) == out);
    }
}

/// Whatever state the compactor is in, its output from there has the words
/// of what it has written, the whitespace it still owes, and the
/// characters it has yet to read.
pub proof fn lemma_brace_from_keeps_words(
    s: Seq<char>,
    pos: int,
    state: State,
    escaped: bool,
    pending: bool,
    out: Seq<char>,
)
    requires
        0 <= pos <= s.len(),
        pending ==> state == State::Normal,
    ensures
        collapsed(brace_from(s, pos, state, escaped, pending, out)) == collapsed(out + space_if(pending)
            + s.subrange(pos, s.len() as int)),
    decreases s.len() - pos,
{
    let len = s.len() as int;
    if pos == len {
        assert(s.subrange(pos, len) == Seq::<char>::empty());
        assert(out + space_if(pending) + s.subrange(pos, len) == out + space_if(pending));
        lemma_collapsed_trailing_ws(out, space_if(pending));
        return;
    }
    let c = s[pos];
    let next_is = |d: char| pos + 1 < s.len() && s[pos + 1] == d;
    let rest = s.subrange(pos, len);
    match state {
        State::Normal => {
            if is_ws(c) {
                lemma_brace_from_keeps_words(s, pos + 1, State::Normal, escaped, true, out);
                let u = space_if(pending).push(c);
                assert(crate::text::all_ws(u));
                assert(crate::text::all_ws(seq![' ']));
                lemma_collapsed_ws_run(out, u, seq![' '], s.subrange(pos + 1, len));
                assert(rest == seq![c] + s.subrange(pos + 1, len));
                assert(out + space_if(pending) + rest == out + u + s.subrange(pos + 1, len));
                assert(out + space_if(true) == out + seq![' ']);
            } else {
                let o = separate(out, pending);
                lemma_separate_words(out, pending, rest);
                if c == '<' && pos + 2 < s.len() && s[pos + 1] == '<' && s[pos + 2] == '<' {
                } else if c == 'R' && raw_prefix(s, pos + 1) is Some {
                } else if c == 'r' && raw_prefix(s, pos + 1) is Some {
                    let h = raw_prefix(s, pos + 1)->0;
                    lemma_brace_from_keeps_words(
                        s,
                        pos + 2 + h,
                        State::RawString(h as usize),
                        escaped,
                        false,
                        o + s.subrange(pos, pos + 2 + h),
                    );
                    lemma_moved_text(s, pos, pos + 2 + h, o);
                } else if c == '\'' {
                    lemma_brace_from_keeps_words(s, pos + 1, State::SingleQuoted, false, false, o.push(c));
                    lemma_moved_text(s, pos, pos + 1, o);
                } else if c == '"' {
                    lemma_brace_from_keeps_words(s, pos + 1, State::DoubleQuoted, false, false, o.push(c));
                    lemma_moved_text(s, pos, pos + 1, o);
                } else if c == '`' {
                    lemma_brace_from_keeps_words(s, pos + 1, State::BacktickQuoted, false, false, o.push(c));
                    lemma_moved_text(s, pos, pos + 1, o);
                } else if c == '/' && next_is('/') {
                    lemma_brace_from_keeps_words(s, pos + 2, State::LineComment, escaped, false, o + s.subrange(pos, pos + 2));
                    lemma_moved_text(s, pos, pos + 2, o);
                } else if c == '/' && next_is('*') {
                    lemma_brace_from_keeps_words(s, pos + 2, State::BlockComment, escaped, false, o + s.subrange(pos, pos + 2));
                    lemma_moved_text(s, pos, pos + 2, o);
                } else if c == '#' {
                    lemma_brace_from_keeps_words(s, pos + 1, State::LineComment, escaped, false, o.push(c));
                    lemma_moved_text(s, pos, pos + 1, o);
                } else {
                    lemma_brace_from_keeps_words(s, pos + 1, State::Normal, escaped, false, o.push(c));
                    lemma_moved_text(s, pos, pos + 1, o);
                }
            }
        },
        State::SingleQuoted | State::DoubleQuoted | State::BacktickQuoted => {
            let o = out.push(c);
            lemma_moved_text(s, pos, pos + 1, out);
            assert(out + space_if(pending) == out);
            if escaped {
                lemma_brace_from_keeps_words(s, pos + 1, state, false, pending, o);
            } else if c == '\\' {
                lemma_brace_from_keeps_words(s, pos + 1, state, true, pending, o);
            } else if c == closing_quote(state) {
                lemma_brace_from_keeps_words(s, pos + 1, State::Normal, escaped, pending, o);
            } else {
                lemma_brace_from_keeps_words(s, pos + 1, state, escaped, pending, o);
            }
        },
        State::LineComment => {
            assert(out + space_if(pending) == out);
            if c == '\r' {
                assert(crate::text::all_ws(seq!['\n']));
                if next_is('\n') {
                    lemma_brace_from_keeps_words(s, pos + 2, State::Normal, escaped, pending, out.push('\n'));
                    let u = s.subrange(pos, pos + 2);
                    assert(u == seq!['\r', '\n']);
                    assert(crate::text::all_ws(u));
                    lemma_collapsed_ws_run(out, u, seq!['\n'], s.subrange(pos + 2, len));
                    lemma_moved_text(s, pos, pos + 2, out);
                    assert(out.push('\n') == out + seq!['\n']);
                } else {
                    lemma_brace_from_keeps_words(s, pos + 1, State::Normal, escaped, pending, out.push('\n'));
                    let u = s.subrange(pos, pos + 1);
                    assert(u == seq!['\r']);
                    assert(crate::text::all_ws(u));
                    lemma_collapsed_ws_run(out, u, seq!['\n'], s.subrange(pos + 1, len));
                    lemma_moved_text(s, pos, pos + 1, out);
                    assert(out.push('\n') == out + seq!['\n']);
                }
            } else if c == '\n' {
                lemma_moved_text(s, pos, pos + 1, out);
                lemma_brace_from_keeps_words(s, pos + 1, State::Normal, escaped, pending, out.push('\n'));
            } else {
                lemma_moved_text(s, pos, pos + 1, out);
                lemma_brace_from_keeps_words(s, pos + 1, State::LineComment, escaped, pending, out.push(c));
            }
        },
        State::BlockComment => {
            assert(out + space_if(pending) == out);
            if c == '*' && next_is('/') {
                lemma_brace_from_keeps_words(s, pos + 2, State::Normal, escaped, pending, out + s.subrange(pos, pos + 2));
                lemma_moved_text(s, pos, pos + 2, out);
            } else {
                lemma_moved_text(s, pos, pos + 1, out);
                lemma_brace_from_keeps_words(s, pos + 1, State::BlockComment, escaped, pending, out.push(c));
            }
        },
        State::RawString(h) => {
            assert(out + space_if(pending) == out);
            if c == '"' && hashes_at(s, pos + 1, h as int) {
                lemma_brace_from_keeps_words(s, pos + 1 + h, State::Normal, escaped, pending, out + s.subrange(pos, pos + 1 + h));
                lemma_moved_text(s, pos, pos + 1 + h, out);
            } else {
                lemma_moved_text(s, pos, pos + 1, out);
                lemma_brace_from_keeps_words(s, pos + 1, state, escaped, pending, out.push(c));
            }
        },
    }
}

/// Compaction keeps the words of the text: where whitespace stood between
/// two characters that are not whitespace, some whitespace still stands,
/// and where none stood, none is put; only the amount of whitespace
/// changes. So adjacent code tokens never merge.
pub proof fn lemma_compress_keeps_words(s: Seq<char>)
    ensures
        collapsed(brace_compressed(s)) == collapsed(s),
{
    lemma_brace_from_keeps_words(s, 0, State::Normal, false, false, Seq::empty());
    assert(Seq::<char>::empty() + space_if(false) + s.subrange(0, s.len() as int) == s);
}

/// Emits the separator owed for a whitespace run, unless the output is empty
/// or already ends a line, and clears the pending flag.
pub fn push_pending_separator(output: &mut Vec<char>, pending: &mut bool)
    ensures
        final(output)@ == separate(old(output)@, *old(pending)),
        !*final(pending),
{
    if *pending && output.len() > 0 && output[output.len() - 1] != '\n' {
        output.push(' ');
    }
    *pending = false;
}

/// When `chars[start..]` is `#`* followed by `"`, the number of `#`.
pub fn raw_string_prefix(chars: &Vec<char>, start: usize) -> (r: Option<usize>)
    ensures
        r == (match raw_prefix(chars@, start as int) {
            Some(k) => Some(k as usize),
            None => None,
        }),
        r matches Some(k) ==> start + k + 1 <= chars.len(),
{
    let ghost s = chars@;
    let mut hashes: usize = 0;
    while start + hashes < chars.len() && chars[start + hashes] == '#'
        invariant
            start + hashes <= chars.len() || hashes == 0,
            hash_run(s, start as int) == hashes + hash_run(s, start + hashes),
            s == chars@,
        decreases chars.len() - start - hashes,
    {
        hashes += 1;
    }
    if start + hashes < chars.len() && chars[start + hashes] == '"' {
        Some(hashes)
    } else {
        None
    }
}

/// `chars[start..start + count]` exists and holds only `#`.
pub fn next_chars_are_hashes(chars: &Vec<char>, start: usize, count: usize) -> (r: bool)
    ensures
        r == hashes_at(chars@, start as int, count as int),
{
    if start > chars.len() || count > chars.len() - start {
        return false;
    }
    let mut i: usize = 0;
    while i < count
        invariant
            i <= count,
            start + count <= chars.len(),
            forall|j: int| start <= j < start + i ==> chars@[j] == '#',
        decreases count - i,
    {
        if chars[start + i] != '#' {
            return false;
        }
        i += 1;
    }
    true
}


/// What the compactor has written stays at the front of its output.
proof fn lemma_brace_keeps_written(s: Seq<char>, pos: int, state: State, escaped: bool, pending: bool, out: Seq<char>)
    ensures
        out.len() <= brace_from(s, pos, state, escaped, pending, out).len(),
        brace_from(s, pos, state, escaped, pending, out).take(out.len() as int) == out,
    decreases s.len() - pos,
{
    if 0 <= pos < s.len() {
        let c = s[pos];
        let next_is = |d: char| pos + 1 < s.len() && s[pos + 1] == d;
        match state {
            State::Normal => {
                if is_ws(c) {
                    lemma_brace_keeps_written(s, pos + 1, State::Normal, escaped, true, out);
                } else {
                    let o = separate(out, pending);
                    assert(o.take(out.len() as int) == out);
                    if c == '<' && pos + 2 < s.len() && s[pos + 1] == '<' && s[pos + 2] == '<' {
                        assert((o + s.subrange(pos, s.len() as int)).take(out.len() as int) == out);
                    } else if c == 'R' && raw_prefix(s, pos + 1) is Some {
                        assert((o + s.subrange(pos, s.len() as int)).take(out.len() as int) == out);
                    } else if c == 'r' && raw_prefix(s, pos + 1) is Some {
                        let h = raw_prefix(s, pos + 1)->0;
                        let o2 = o + s.subrange(pos, pos + 2 + h);
                        lemma_brace_keeps_written(s, pos + 2 + h, State::RawString(h as usize), escaped, false, o2);
                        assert(o2.take(out.len() as int) == out);
                    } else {
                        let o2 = if c == '/' && (next_is('/') || next_is('*')) {
                            o + s.subrange(pos, pos + 2)
                        } else {
                            o.push(c)
                        };
                        assert(o2.take(out.len() as int) == out);
                        if c == '\'' {
                            lemma_brace_keeps_written(s, pos + 1, State::SingleQuoted, false, false, o2);
                        } else if c == '"' {
                            lemma_brace_keeps_written(s, pos + 1, State::DoubleQuoted, false, false, o2);
                        } else if c == '`' {
                            lemma_brace_keeps_written(s, pos + 1, State::BacktickQuoted, false, false, o2);
                        } else if c == '/' && next_is('/') {
                            lemma_brace_keeps_written(s, pos + 2, State::LineComment, escaped, false, o2);
                        } else if c == '/' && next_is('*') {
                            lemma_brace_keeps_written(s, pos + 2, State::BlockComment, escaped, false, o2);
                        } else if c == '#' {
                            lemma_brace_keeps_written(s, pos + 1, State::LineComment, escaped, false, o2);
                        } else {
                            lemma_brace_keeps_written(s, pos + 1, State::Normal, escaped, false, o2);
                        }
                    }
                }
            },
            State::SingleQuoted | State::DoubleQuoted | State::BacktickQuoted => {
                let o = out.push(c);
                assert(o.take(out.len() as int) == out);
                if escaped {
                    lemma_brace_keeps_written(s, pos + 1, state, false, pending, o);
                } else if c == '\\' {
                    lemma_brace_keeps_written(s, pos + 1, state, true, pending, o);
                } else if c == closing_quote(state) {
                    lemma_brace_keeps_written(s, pos + 1, State::Normal, escaped, pending, o);
                } else {
                    lemma_brace_keeps_written(s, pos + 1, state, escaped, pending, o);
                }
            },
            State::LineComment => {
                if c == '\r' || c == '\n' {
                    let o = out.push('\n');
                    assert(o.take(out.len() as int) == out);
                    let skip = if c == '\r' && next_is('\n') {
                        2int
                    } else {
                        1int
                    };
                    lemma_brace_keeps_written(s, pos + skip, State::Normal, escaped, pending, o);
                } else {
                    let o = out.push(c);
                    assert(o.take(out.len() as int) == out);
                    lemma_brace_keeps_written(s, pos + 1, State::LineComment, escaped, pending, o);
                }
            },
            State::BlockComment => {
                if c == '*' && next_is('/') {
                    let o = out + s.subrange(pos, pos + 2);
                    assert(o.take(out.len() as int) == out);
                    lemma_brace_keeps_written(s, pos + 2, State::Normal, escaped, pending, o);
                } else {
                    let o = out.push(c);
                    assert(o.take(out.len() as int) == out);
                    lemma_brace_keeps_written(s, pos + 1, State::BlockComment, escaped, pending, o);
                }
            },
            State::RawString(h) => {
                if c == '"' && hashes_at(s, pos + 1, h as int) {
                    let o = out + s.subrange(pos, pos + 1 + h);
                    assert(o.take(out.len() as int) == out);
                    lemma_brace_keeps_written(s, pos + 1 + h, State::Normal, escaped, pending, o);
                } else {
                    let o = out.push(c);
                    assert(o.take(out.len() as int) == out);
                    lemma_brace_keeps_written(s, pos + 1, state, escaped, pending, o);
                }
            },
        }
    }
}

/// A character of plain code: nothing that opens a literal, a comment, a
/// heredoc or a raw string.
pub open spec fn plain_code_char(c: char) -> bool {
    c != '\'' && c != '"' && c != '`' && c != '#' && c != '/' && c != '<'
}

/// Plain code leaves the compactor in its normal state.
proof fn lemma_plain_run(s: Seq<char>, i: int, j: int, escaped: bool, pending: bool, out: Seq<char>) -> (r: (
    bool,
    Seq<char>,
))
    requires
        0 <= i <= j < s.len(),
        forall|k: int| i <= k < j ==> plain_code_char(#[trigger] s[k]),
        j == 0 || (s[j - 1] != 'r' && s[j - 1] != 'R') || raw_prefix(s, j) is None,
    ensures
        brace_from(s, i, State::Normal, escaped, pending, out) == brace_from(
            s,
            j,
            State::Normal,
            escaped,
            r.0,
            r.1,
        ),
    decreases j - i,
{
    if i == j {
        (pending, out)
    } else {
        let c = s[i];
        assert(plain_code_char(c));
        if is_ws(c) {
            lemma_plain_run(s, i + 1, j, escaped, true, out)
        } else {
            if (c == 'r' || c == 'R') && i + 1 < j {
                assert(plain_code_char(s[i + 1]));
                assert(hash_run(s, i + 1) == 0);
                assert(raw_prefix(s, i + 1) is None);
            }
            lemma_plain_run(s, i + 1, j, escaped, false, separate(out, pending).push(c))
        }
    }
}

/// Inside a quoted literal, its body is copied one character at a time,
/// escapes included.
proof fn lemma_quoted_run(s: Seq<char>, i: int, j: int, state: State, pending: bool, out: Seq<char>)
    requires
        0 <= i <= j <= s.len(),
        state == State::SingleQuoted || state == State::DoubleQuoted || state == State::BacktickQuoted,
        literal_body(s, closing_quote(state), i, j),
    ensures
        brace_from(s, i, state, false, pending, out) == brace_from(
            s,
            j,
            state,
            false,
            pending,
            out + s.subrange(i, j),
        ),
    decreases j - i,
{
    if i == j {
        assert(out + s.subrange(i, j) == out);
    } else if s[i] == '\\' {
        assert(brace_from(s, i, state, false, pending, out) == brace_from(s, i + 1, state, true, pending, out.push(s[i])));
        assert(brace_from(s, i + 1, state, true, pending, out.push(s[i])) == brace_from(
            s,
            i + 2,
            state,
            false,
            pending,
            out.push(s[i]).push(s[i + 1]),
        ));
        lemma_quoted_run(s, i + 2, j, state, pending, out.push(s[i]).push(s[i + 1]));
        assert(out.push(s[i]).push(s[i + 1]) + s.subrange(i + 2, j) == out + s.subrange(i, j));
    } else {
        lemma_quoted_run(s, i + 1, j, state, pending, out.push(s[i]));
        assert(out.push(s[i]) + s.subrange(i + 1, j) == out + s.subrange(i, j));
    }
}

/// A string literal opened by `'`, `"` or a backtick after plain code is
/// copied to the output byte for byte, quotes and escapes included:
/// whatever follows, the compacted text of `p + q + t + q + rest` contains
/// `q + t + q` unchanged, for any literal body `t` (each `\\` escapes the
/// next character, and `q` occurs only so escaped).
pub proof fn lemma_quoted_literal_kept(p: Seq<char>, quote: char, t: Seq<char>, rest: Seq<char>) -> (at: int)
    requires
        quote == '\'' || quote == '"' || quote == '`',
        forall|k: int| 0 <= k < p.len() ==> plain_code_char(#[trigger] p[k]),
        quote == '"' && p.len() > 0 ==> p.last() != 'r' && p.last() != 'R',
        literal_body(t, quote, 0, t.len() as int),
    ensures
        ({
            let out = brace_compressed(p + seq![quote] + t + seq![quote] + rest);
            &&& 0 <= at
            &&& at + t.len() + 2 <= out.len()
            &&& out.subrange(at, at + t.len() + 2) == seq![quote] + t + seq![quote]
        }),
{
    let s = p + seq![quote] + t + seq![quote] + rest;
    let j = p.len() as int;
    assert forall|k: int| 0 <= k < j implies plain_code_char(#[trigger] s[k]) by {
        assert(s[k] == p[k]);
    }
    assert(s[j] == quote);
    if j > 0 {
        assert(s[j - 1] == p.last());
    }
    assert(hash_run(s, j) == 0);
    let (pend, o0) = lemma_plain_run(s, 0, j, false, false, Seq::empty());
    let o = separate(o0, pend);
    let state = if quote == '\'' {
        State::SingleQuoted
    } else if quote == '"' {
        State::DoubleQuoted
    } else {
        State::BacktickQuoted
    };
    assert(closing_quote(state) == quote);
    assert(raw_prefix(s, j + 1) is None || (quote != 'r' && quote != 'R'));
    assert(brace_from(s, j, State::Normal, false, pend, o0) == brace_from(s, j + 1, state, false, false, o.push(quote)));
    let b = j + 1 + t.len();
    assert(s.subrange(j + 1, b) == t);
    lemma_literal_body_moved(s, j + 1, t, quote, 0);
    lemma_quoted_run(s, j + 1, b, state, false, o.push(quote));
    assert(s.subrange(j + 1, b) == t);
    assert(s[b] == quote);
    let written = o.push(quote) + t + seq![quote];
    assert((o.push(quote) + t).push(quote) == written);
    assert(s[b] != '\\');
    assert(brace_from(s, b, state, false, false, o.push(quote) + t) == brace_from(s, b + 1, State::Normal, false, false, written));
    lemma_brace_keeps_written(s, b + 1, State::Normal, false, false, written);
    let out = brace_compressed(s);
    assert(out.take(written.len() as int) == written);
    assert(written.subrange(o.len() as int, written.len() as int) == seq![quote] + t + seq![quote]);
    assert(out.subrange(o.len() as int, o.len() + t.len() + 2int) == written.subrange(o.len() as int, written.len() as int));
    o.len() as int
}


/// Inside a comment, characters that do not end it are copied one by one.
proof fn lemma_comment_run(s: Seq<char>, i: int, j: int, state: State, escaped: bool, pending: bool, out: Seq<char>)
    requires
        0 <= i <= j <= s.len(),
        state == State::LineComment || state == State::BlockComment,
        state == State::LineComment ==> forall|k: int| i <= k < j ==> #[trigger] s[k] != '\r' && s[k] != '\n',
        state == State::BlockComment ==> forall|k: int| i <= k < j ==> #[trigger] s[k] != '*',
    ensures
        brace_from(s, i, state, escaped, pending, out) == brace_from(
            s,
            j,
            state,
            escaped,
            pending,
            out + s.subrange(i, j),
        ),
    decreases j - i,
{
    if i == j {
        assert(out + s.subrange(i, j) == out);
    } else {
        lemma_comment_run(s, i + 1, j, state, escaped, pending, out.push(s[i]));
        assert(out.push(s[i]) + s.subrange(i + 1, j) == out + s.subrange(i, j));
    }
}

/// The output from `b` on starts with `written`, at position `at`, so the
/// whole output holds `piece` there when `written` ends with it.
proof fn lemma_found_piece(s: Seq<char>, b: int, escaped: bool, written: Seq<char>, at: int, piece: Seq<char>)
    requires
        0 <= at,
        written.len() == at + piece.len(),
        written.subrange(at, written.len() as int) == piece,
    ensures
        ({
            let out = brace_from(s, b, State::Normal, escaped, false, written);
            &&& at + piece.len() <= out.len()
            &&& out.subrange(at, at + piece.len()) == piece
        }),
{
    lemma_brace_keeps_written(s, b, State::Normal, escaped, false, written);
    let out = brace_from(s, b, State::Normal, escaped, false, written);
    assert(out.subrange(at, at + piece.len()) == out.take(written.len() as int).subrange(at, at + piece.len()));
}

/// A line comment opened by `//` or `#` after plain code is copied to the
/// output byte for byte up to and including its `\n`: the compacted text of
/// `p + opener + t + "\n" + rest` contains `opener + t + "\n"`, for `t`
/// without line breaks.
pub proof fn lemma_line_comment_kept(p: Seq<char>, opener: Seq<char>, t: Seq<char>, rest: Seq<char>) -> (at: int)
    requires
        opener == seq!['/', '/'] || opener == seq!['#'],
        forall|k: int| 0 <= k < p.len() ==> plain_code_char(#[trigger] p[k]),
        opener == seq!['#'] && p.len() > 0 ==> p.last() != 'r' && p.last() != 'R',
        forall|k: int| 0 <= k < t.len() ==> #[trigger] t[k] != '\r' && t[k] != '\n',
    ensures
        ({
            let out = brace_compressed(p + opener + t + seq!['\n'] + rest);
            let piece = opener + t + seq!['\n'];
            &&& 0 <= at
            &&& at + piece.len() <= out.len()
            &&& out.subrange(at, at + piece.len()) == piece
        }),
{
    let s = p + opener + t + seq!['\n'] + rest;
    let j = p.len() as int;
    assert forall|k: int| 0 <= k < j implies plain_code_char(#[trigger] s[k]) by {
        assert(s[k] == p[k]);
    }
    assert(s[j] == opener[0]);
    if j > 0 {
        assert(s[j - 1] == p.last());
    }
    if opener == seq!['/', '/'] {
        assert(hash_run(s, j) == 0);
    }
    let (pend, o0) = lemma_plain_run(s, 0, j, false, false, Seq::empty());
    let o = separate(o0, pend);
    let a = j + opener.len();
    if opener == seq!['/', '/'] {
        assert(s[j + 1] == '/');
        assert(brace_from(s, j, State::Normal, false, pend, o0) == brace_from(s, a, State::LineComment, false, false, o + s.subrange(j, a)));
    } else {
        assert(brace_from(s, j, State::Normal, false, pend, o0) == brace_from(s, a, State::LineComment, false, false, o.push('#')));
        assert(o.push('#') == o + s.subrange(j, a));
    }
    assert(s.subrange(j, a) == opener);
    let b = a + t.len();
    assert forall|k: int| a <= k < b implies #[trigger] s[k] != '\r' && s[k] != '\n' by {
        assert(s[k] == t[k - a]);
    }
    lemma_comment_run(s, a, b, State::LineComment, false, false, o + opener);
    assert(s.subrange(a, b) == t);
    assert(s[b] == '\n');
    let written = o + opener + t + seq!['\n'];
    assert((o + opener + t).push('\n') == written);
    let piece = opener + t + seq!['\n'];
    assert(written.subrange(o.len() as int, written.len() as int) == piece);
    lemma_found_piece(s, b + 1, false, written, o.len() as int, piece);
    o.len() as int
}

/// A block comment opened by `/*` after plain code is copied to the output
/// byte for byte with its `*/`: the compacted text of
/// `p + "/*" + t + "*/" + rest` contains `"/*" + t + "*/"`, for `t`
/// without `*`.
pub proof fn lemma_block_comment_kept(p: Seq<char>, t: Seq<char>, rest: Seq<char>) -> (at: int)
    requires
        forall|k: int| 0 <= k < p.len() ==> plain_code_char(#[trigger] p[k]),
        forall|k: int| 0 <= k < t.len() ==> #[trigger] t[k] != '*',
    ensures
        ({
            let out = brace_compressed(p + seq!['/', '*'] + t + seq!['*', '/'] + rest);
            let piece = seq!['/', '*'] + t + seq!['*', '/'];
            &&& 0 <= at
            &&& at + piece.len() <= out.len()
            &&& out.subrange(at, at + piece.len()) == piece
        }),
{
    let s = p + seq!['/', '*'] + t + seq!['*', '/'] + rest;
    let j = p.len() as int;
    assert forall|k: int| 0 <= k < j implies plain_code_char(#[trigger] s[k]) by {
        assert(s[k] == p[k]);
    }
    assert(s[j] == '/' && s[j + 1] == '*');
    assert(hash_run(s, j) == 0);
    let (pend, o0) = lemma_plain_run(s, 0, j, false, false, Seq::empty());
    let o = separate(o0, pend);
    let a = j + 2;
    let open = seq!['/', '*'];
    assert(s.subrange(j, a) == open);
    assert(brace_from(s, j, State::Normal, false, pend, o0) == brace_from(s, a, State::BlockComment, false, false, o + open));
    let b = a + t.len();
    assert forall|k: int| a <= k < b implies #[trigger] s[k] != '*' by {
        assert(s[k] == t[k - a]);
    }
    lemma_comment_run(s, a, b, State::BlockComment, false, false, o + open);
    assert(s.subrange(a, b) == t);
    assert(s[b] == '*' && s[b + 1] == '/');
    let close = seq!['*', '/'];
    assert(s.subrange(b, b + 2) == close);
    let written = o + open + t + close;
    assert(brace_from(s, b, State::BlockComment, false, false, o + open + t) == brace_from(s, b + 2, State::Normal, false, false, written));
    let piece = open + t + close;
    assert(written.subrange(o.len() as int, written.len() as int) == piece);
    lemma_found_piece(s, b + 2, false, written, o.len() as int, piece);
    o.len() as int
}


/// A heredoc (`<<<`) after plain code makes the compactor copy everything
/// from there to the end unchanged: the compacted text of
/// `p + "<<<" + rest` ends with `"<<<" + rest`.
pub proof fn lemma_heredoc_kept(p: Seq<char>, rest: Seq<char>)
    requires
        forall|k: int| 0 <= k < p.len() ==> plain_code_char(#[trigger] p[k]),
    ensures
        ({
            let out = brace_compressed(p + seq!['<', '<', '<'] + rest);
            let tail = seq!['<', '<', '<'] + rest;
            &&& tail.len() <= out.len()
            &&& out.skip(out.len() - tail.len()) == tail
        }),
{
    let s = p + seq!['<', '<', '<'] + rest;
    let j = p.len() as int;
    assert forall|k: int| 0 <= k < j implies plain_code_char(#[trigger] s[k]) by {
        assert(s[k] == p[k]);
    }
    assert(s[j] == '<' && s[j + 1] == '<' && s[j + 2] == '<');
    if j > 0 {
        assert(s[j - 1] == p.last());
    }
    assert(hash_run(s, j) == 0);
    let (pend, o0) = lemma_plain_run(s, 0, j, false, false, Seq::empty());
    let o = separate(o0, pend);
    let tail = seq!['<', '<', '<'] + rest;
    assert(s.subrange(j, s.len() as int) == tail);
    let out = o + tail;
    assert(brace_compressed(s) == out);
    assert(out.skip(out.len() - tail.len()) == tail);
}

/// A Rust raw string after plain code is copied to the output unchanged:
/// the compacted text of `p + "r" + h + "\"" + t + "\"" + h + rest`, with
/// `h` a run of `#` and `t` without `"`, contains that raw string.
#[verifier::spinoff_prover]
pub proof fn lemma_raw_string_kept(p: Seq<char>, hashes: nat, t: Seq<char>, rest: Seq<char>) -> (at: int)
    requires
        forall|k: int| 0 <= k < p.len() ==> plain_code_char(#[trigger] p[k]),
        hashes <= usize::MAX,
        forall|k: int| 0 <= k < t.len() ==> #[trigger] t[k] != '"',
    ensures
        ({
            let h = Seq::new(hashes, |i: int| '#');
            let piece = seq!['r'] + h + seq!['"'] + t + seq!['"'] + h;
            let out = brace_compressed(p + piece + rest);
            &&& 0 <= at
            &&& at + piece.len() <= out.len()
            &&& out.subrange(at, at + piece.len()) == piece
        }),
{
    let h = Seq::new(hashes, |i: int| '#');
    let piece = seq!['r'] + h + seq!['"'] + t + seq!['"'] + h;
    let s = p + piece + rest;
    let j = p.len() as int;
    let n = hashes as int;
    assert forall|k: int| 0 <= k < j implies plain_code_char(#[trigger] s[k]) by {
        assert(s[k] == p[k]);
    }
    assert(s[j] == 'r');
    if j > 0 {
        assert(s[j - 1] == p.last());
    }
    assert(hash_run(s, j) == 0);
    let (pend, o0) = lemma_plain_run(s, 0, j, false, false, Seq::empty());
    let o = separate(o0, pend);
    assert forall|i: int| j + 1 <= i < j + 1 + n implies #[trigger] s[i] == '#' by {
        assert(s[i] == h[i - j - 1]);
    }
    assert(s[j + 1 + n] == '"');
    lemma_hash_run_down(s, j + 1 + n, j + 1);
    assert(raw_prefix(s, j + 1) == Some(hashes));
    let a = j + 2 + n;
    let open = s.subrange(j, a);
    assert(open == seq!['r'] + h + seq!['"']);
    let b = a + t.len();
    assert(brace_from(s, 0, State::Normal, false, false, Seq::empty()) == brace_from(s, a, State::RawString(hashes as usize), false, false, o + open));
    lemma_raw_run(s, a, b, hashes as usize, o + open);
    assert(s.subrange(a, b) == t);
    assert(s[b] == '"');
    assert(hashes_at(s, b + 1, n)) by {
        assert forall|i: int| b + 1 <= i < b + 1 + n implies s[i] == '#' by {
            assert(s[i] == h[i - b - 1]);
        }
    }
    let close = s.subrange(b, b + 1 + n);
    assert(close == seq!['"'] + h);
    let written = o + open + t + close;
    assert(brace_from(s, b, State::RawString(hashes as usize), false, false, o + open + t) == brace_from(
        s,
        b + 1 + n,
        State::Normal,
        false,
        false,
        written,
    ));
    assert(open + t + close == piece);
    assert(written.subrange(o.len() as int, written.len() as int) == piece);
    lemma_found_piece(s, b + 1 + n, false, written, o.len() as int, piece);
    o.len() as int
}

proof fn lemma_hash_run_down(s: Seq<char>, end: int, q: int)
    requires
        0 <= q <= end < s.len(),
        s[end] != '#',
        forall|i: int| q <= i < end ==> #[trigger] s[i] == '#',
    ensures
        hash_run(s, q) == end - q,
    decreases end - q,
{
    if q < end {
        lemma_hash_run_down(s, end, q + 1);
    }
}

/// Inside a raw string, characters other than `"` are copied one by one.
proof fn lemma_raw_run(s: Seq<char>, i: int, j: int, h: usize, out: Seq<char>)
    requires
        0 <= i <= j <= s.len(),
        forall|k: int| i <= k < j ==> #[trigger] s[k] != '"',
    ensures
        brace_from(s, i, State::RawString(h), false, false, out) == brace_from(
            s,
            j,
            State::RawString(h),
            false,
            false,
            out + s.subrange(i, j),
        ),
    decreases j - i,
{
    if i == j {
        assert(out + s.subrange(i, j) == out);
    } else {
        lemma_raw_run(s, i + 1, j, h, out.push(s[i]));
        assert(out.push(s[i]) + s.subrange(i + 1, j) == out + s.subrange(i, j));
    }
}

} // verus!
