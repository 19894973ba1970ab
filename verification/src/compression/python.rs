//! Whitespace compaction for Python, where indentation and logical newlines
//! are syntax.
use vstd::prelude::*;

use crate::compression::{
    lemma_without_ws_all_ws, lemma_without_ws_concat, lemma_without_ws_push, lemma_without_ws_split, lemma_without_ws_step,
    without_ws,
};
use crate::compression::words::{
    collapsed, ends_ws, lemma_collapsed_drop_ws, lemma_collapsed_trailing_ws, lemma_collapsed_ws_run,
    lemma_literal_body_moved, lemma_moved_text, literal_body, space_if,
};
use crate::text::{all_ws, chars_of, is_whitespace, is_ws, push_range, string_of};

verus! {

/// Lexical context of the Python compactor.
#[derive(Clone, Copy, Debug, PartialEq, Eq, Structural)]
pub enum State {
    Normal,
    SingleQuoted,
    DoubleQuoted,
    TripleSingleQuoted,
    TripleDoubleQuoted,
    Comment,
}

/// Length of the line break that starts at `s[pos]` (`\r\n`, `\r` or `\n`).
pub open spec fn newline_len(s: Seq<char>, pos: int) -> int {
    if s[pos] == '\r' && pos + 1 < s.len() && s[pos + 1] == '\n' {
        2
    } else {
        1
    }
}

/// `s[pos]` and `s[pos + 1]` both exist and equal `c`.
pub open spec fn two_at(s: Seq<char>, pos: int, c: char) -> bool {
    0 <= pos && pos + 1 < s.len() && s[pos] == c && s[pos + 1] == c
}

pub open spec fn is_newline(c: char) -> bool {
    c == '\r' || c == '\n'
}

/// The compacted text: `out` followed by what the compactor emits for
/// `s[pos..]` from the given lexical state.  `leading` is the indentation
/// read so far on a line that has no content yet.
pub open spec fn py_from(
    s: Seq<char>,
    pos: int,
    state: State,
    escaped: bool,
    at_line_start: bool,
    line_has_content: bool,
    leading: Seq<char>,
    separator: bool,
    out: Seq<char>,
) -> Seq<char>
    decreases s.len() - pos,
{
    if pos < 0 || pos >= s.len() {
        out
    } else {
        let c = s[pos];
        match state {
            State::Normal => {
                if is_newline(c) {
                    let k = newline_len(s, pos);
                    let o = if line_has_content {
                        out + s.subrange(pos, pos + k)
                    } else {
                        out
                    };
                    py_from(s, pos + k, State::Normal, escaped, true, false, Seq::empty(), false, o)
                } else if is_ws(c) {
                    if at_line_start {
                        py_from(
                            s,
                            pos + 1,
                            State::Normal,
                            escaped,
                            at_line_start,
                            line_has_content,
                            leading.push(c),
                            separator,
                            out,
                        )
                    } else {
                        py_from(
                            s,
                            pos + 1,
                            State::Normal,
                            escaped,
                            at_line_start,
                            line_has_content,
                            leading,
                            true,
                            out,
                        )
                    }
                } else {
                    let o = if at_line_start {
                        out + leading
                    } else if separator {
                        out.push(' ')
                    } else {
                        out
                    };
                    let l = if at_line_start {
                        Seq::empty()
                    } else {
                        leading
                    };
                    if (c == '\'' || c == '"') && two_at(s, pos + 1, c) {
                        py_from(
                            s,
                            pos + 3,
                            if c == '\'' {
                                State::TripleSingleQuoted
                            } else {
                                State::TripleDoubleQuoted
                            },
                            false,
                            false,
                            true,
                            l,
                            false,
                            o + s.subrange(pos, pos + 3),
                        )
                    } else {
                        py_from(
                            s,
                            pos + 1,
                            if c == '\'' {
                                State::SingleQuoted
                            } else if c == '"' {
                                State::DoubleQuoted
                            } else if c == '#' {
                                State::Comment
                            } else {
                                State::Normal
                            },
                            false,
                            false,
                            true,
                            l,
                            false,
                            o.push(c),
                        )
                    }
                }
            },
            State::Comment => {
                if is_newline(c) {
                    let k = newline_len(s, pos);
                    py_from(
                        s,
                        pos + k,
                        State::Normal,
                        escaped,
                        true,
                        false,
                        leading,
                        separator,
                        out + s.subrange(pos, pos + k),
                    )
                } else {
                    py_from(
                        s,
                        pos + 1,
                        State::Comment,
                        escaped,
                        at_line_start,
                        line_has_content,
                        leading,
                        separator,
                        out.push(c),
                    )
                }
            },
            State::SingleQuoted | State::DoubleQuoted => {
                let closing = if state == State::SingleQuoted {
                    '\''
                } else {
                    '"'
                };
                let o = out.push(c);
                if escaped {
                    py_from(s, pos + 1, state, false, at_line_start, line_has_content, leading, separator, o)
                } else if c == '\\' {
                    py_from(s, pos + 1, state, true, at_line_start, line_has_content, leading, separator, o)
                } else if c == closing {
                    py_from(s, pos + 1, State::Normal, escaped, at_line_start, line_has_content, leading, separator, o)
                } else {
                    py_from(s, pos + 1, state, escaped, at_line_start, line_has_content, leading, separator, o)
                }
            },
            State::TripleSingleQuoted | State::TripleDoubleQuoted => {
                let closing = if state == State::TripleSingleQuoted {
                    '\''
                } else {
                    '"'
                };
                if escaped {
                    py_from(s, pos + 1, state, false, at_line_start, line_has_content, leading, separator, out.push(c))
                } else if c == '\\' {
                    py_from(s, pos + 1, state, true, at_line_start, line_has_content, leading, separator, out.push(c))
                } else if c == closing && two_at(s, pos + 1, closing) {
                    py_from(
                        s,
                        pos + 3,
                        State::Normal,
                        escaped,
                        at_line_start,
                        line_has_content,
                        leading,
                        separator,
                        out + s.subrange(pos, pos + 3),
                    )
                } else {
                    py_from(s, pos + 1, state, escaped, at_line_start, line_has_content, leading, separator, out.push(c))
                }
            },
        }
    }
}

/// What `compress` returns for `s`.
pub open spec fn py_compressed(s: Seq<char>) -> Seq<char> {
    py_from(s, 0, State::Normal, false, true, false, Seq::empty(), false, Seq::empty())
}

/// The whitespace that the compactor owes the output in a state: the
/// indentation read on a line without content yet, or one separator.
pub open spec fn owed(at_line_start: bool, leading: Seq<char>, separator: bool) -> Seq<char> {
    if at_line_start {
        leading
    } else {
        space_if(separator)
    }
}

/// A line break is whitespace.
proof fn lemma_newline_is_ws(s: Seq<char>, pos: int)
    requires
        0 <= pos < s.len(),
        is_newline(s[pos]),
    ensures
        all_ws(s.subrange(pos, pos + newline_len(s, pos))),
        s.subrange(pos, pos + newline_len(s, pos)).len() > 0,
{
    let nl = s.subrange(pos, pos + newline_len(s, pos));
    assert forall|i: int| 0 <= i < nl.len() implies is_ws(#[trigger] nl[i]) by {
        assert(nl[i] == s[pos + i]);
    }
}

/// `leading` followed by more whitespace is whitespace.
proof fn lemma_push_ws(leading: Seq<char>, c: char)
    requires
        all_ws(leading),
        is_ws(c),
    ensures
        all_ws(leading.push(c)),
{
    assert forall|i: int| 0 <= i < leading.push(c).len() implies is_ws(#[trigger] leading.push(c)[i]) by {
        if i < leading.len() {
            assert(leading.push(c)[i] == leading[i]);
        }
    }
}

/// A line break after owed whitespace: kept after a line with content,
/// dropped after one without, the words stay the same.
proof fn lemma_line_break_words(out: Seq<char>, x: Seq<char>, nl: Seq<char>, after: Seq<char>, keep: bool)
    requires
        all_ws(x),
        all_ws(nl),
        nl.len() > 0,
        !keep ==> out.len() == 0 || ends_ws(out),
    ensures
        collapsed(out + x + (nl + after)) == collapsed(
            (if keep {
                out + nl
            } else {
                out
            }) + after,
        ),
{
    assert(out + x + (nl + after) == out + (x + nl) + after);
    assert(all_ws(x + nl)) by {
        assert forall|i: int| 0 <= i < (x + nl).len() implies is_ws(#[trigger] (x + nl)[i]) by {
            if i < x.len() {
                assert((x + nl)[i] == x[i]);
            } else {
                assert((x + nl)[i] == nl[i - x.len()]);
            }
        }
    }
    if keep {
        lemma_collapsed_ws_run(out, x + nl, nl, after);
    } else {
        lemma_collapsed_drop_ws(out, x + nl, after);
    }
}

/// Whitespace after owed whitespace is owed as one separator.
proof fn lemma_more_space(out: Seq<char>, x: Seq<char>, c: char, after: Seq<char>)
    requires
        all_ws(x),
        is_ws(c),
    ensures
        collapsed(out + x + (seq![c] + after)) == collapsed(out + seq![' '] + after),
{
    lemma_push_ws(x, c);
    assert(all_ws(seq![' ']));
    lemma_collapsed_ws_run(out, x.push(c), seq![' '], after);
    assert(out + x + (seq![c] + after) == out + x.push(c) + after);
}

/// Whatever state the compactor is in, its output from there has the words
/// of what it has written, the whitespace it still owes, and the
/// characters it has yet to read.
#[verifier::spinoff_prover]
#[verifier::rlimit(30)]
pub proof fn lemma_py_from_keeps_words(
    s: Seq<char>,
    pos: int,
    state: State,
    escaped: bool,
    at_line_start: bool,
    line_has_content: bool,
    leading: Seq<char>,
    separator: bool,
    out: Seq<char>,
)
    requires
        0 <= pos <= s.len(),
        all_ws(leading),
        state != State::Normal ==> !at_line_start && !separator,
        !line_has_content ==> state == State::Normal && (out.len() == 0 || ends_ws(out)),
    ensures
        collapsed(py_from(s, pos, state, escaped, at_line_start, line_has_content, leading, separator, out))
            == collapsed(out + owed(at_line_start, leading, separator) + s.subrange(pos, s.len() as int)),
    decreases s.len() - pos,
{
    let len = s.len() as int;
    let x = owed(at_line_start, leading, separator);
    assert(all_ws(x)) by {
        assert(all_ws(seq![' ']));
        assert(all_ws(Seq::<char>::empty()));
    }
    if pos == len {
        assert(s.subrange(pos, len) == Seq::<char>::empty());
        assert(out + x + s.subrange(pos, len) == out + x);
        lemma_collapsed_trailing_ws(out, x);
        return;
    }
    let c = s[pos];
    let rest = s.subrange(pos, len);
    match state {
        State::Normal => {
            if is_newline(c) {
                let k = newline_len(s, pos);
                let nl = s.subrange(pos, pos + k);
                let after = s.subrange(pos + k, len);
                lemma_newline_is_ws(s, pos);
                assert(rest == nl + after);
                let o = if line_has_content {
                    out + nl
                } else {
                    out
                };
                lemma_py_from_keeps_words(s, pos + k, State::Normal, escaped, true, false, Seq::empty(), false, o);
                assert(o + owed(true, Seq::<char>::empty(), false) == o);
                lemma_line_break_words(out, x, nl, after, line_has_content);
            } else if is_ws(c) {
                let after = s.subrange(pos + 1, len);
                assert(rest == seq![c] + after);
                if at_line_start {
                    lemma_push_ws(leading, c);
                    lemma_py_from_keeps_words(s, pos + 1, State::Normal, escaped, at_line_start, line_has_content, leading.push(c), separator, out);
                    assert(out + x + rest == out + leading.push(c) + after);
                } else {
                    lemma_py_from_keeps_words(s, pos + 1, State::Normal, escaped, at_line_start, line_has_content, leading, true, out);
                    lemma_more_space(out, x, c, after);
                    assert(owed(at_line_start, leading, true) == seq![' ']);
                }
            } else {
                let o = if at_line_start {
                    out + leading
                } else if separator {
                    out.push(' ')
                } else {
                    out
                };
                assert(o == out + x);
                let l = if at_line_start {
                    Seq::<char>::empty()
                } else {
                    leading
                };
                assert(all_ws(l)) by {
                    assert(all_ws(Seq::<char>::empty()));
                }
                assert(out + x + rest == o + rest);
                if (c == '\'' || c == '"') && two_at(s, pos + 1, c) {
                    let st = if c == '\'' {
                        State::TripleSingleQuoted
                    } else {
                        State::TripleDoubleQuoted
                    };
                    lemma_py_from_keeps_words(s, pos + 3, st, false, false, true, l, false, o + s.subrange(pos, pos + 3));
                    lemma_moved_text(s, pos, pos + 3, o);
                } else {
                    let st = if c == '\'' {
                        State::SingleQuoted
                    } else if c == '"' {
                        State::DoubleQuoted
                    } else if c == '#' {
                        State::Comment
                    } else {
                        State::Normal
                    };
                    lemma_py_from_keeps_words(s, pos + 1, st, false, false, true, l, false, o.push(c));
                    lemma_moved_text(s, pos, pos + 1, o);
                }
            }
        },
        State::Comment => {
            assert(x == Seq::<char>::empty());
            assert(out + x == out);
            if is_newline(c) {
                let k = newline_len(s, pos);
                let nl = s.subrange(pos, pos + k);
                let after = s.subrange(pos + k, len);
                lemma_py_from_keeps_words(s, pos + k, State::Normal, escaped, true, false, leading, separator, out + nl);
                assert(nl.len() > 0 && is_ws(nl.last())) by {
                    assert(nl.last() == s[pos + k - 1]);
                }
                lemma_collapsed_drop_ws(out + nl, leading, after);
                lemma_moved_text(s, pos, pos + k, out);
                assert(out + nl + space_if(false) == out + nl);
                assert(owed(true, leading, separator) == leading);
            } else {
                lemma_moved_text(s, pos, pos + 1, out);
                lemma_py_from_keeps_words(s, pos + 1, State::Comment, escaped, at_line_start, line_has_content, leading, separator, out.push(c));
            }
        },
        State::SingleQuoted | State::DoubleQuoted => {
            assert(x == Seq::<char>::empty());
            assert(out + x == out);
            let closing = if state == State::SingleQuoted {
                '\''
            } else {
                '"'
            };
            let o = out.push(c);
            lemma_moved_text(s, pos, pos + 1, out);
            if escaped {
                lemma_py_from_keeps_words(s, pos + 1, state, false, at_line_start, line_has_content, leading, separator, o);
            } else if c == '\\' {
                lemma_py_from_keeps_words(s, pos + 1, state, true, at_line_start, line_has_content, leading, separator, o);
            } else if c == closing {
                lemma_py_from_keeps_words(s, pos + 1, State::Normal, escaped, at_line_start, line_has_content, leading, separator, o);
            } else {
                lemma_py_from_keeps_words(s, pos + 1, state, escaped, at_line_start, line_has_content, leading, separator, o);
            }
        },
        State::TripleSingleQuoted | State::TripleDoubleQuoted => {
            assert(x == Seq::<char>::empty());
            assert(out + x == out);
            let closing = if state == State::TripleSingleQuoted {
                '\''
            } else {
                '"'
            };
            if escaped {
                lemma_moved_text(s, pos, pos + 1, out);
                lemma_py_from_keeps_words(s, pos + 1, state, false, at_line_start, line_has_content, leading, separator, out.push(c));
            } else if c == '\\' {
                lemma_moved_text(s, pos, pos + 1, out);
                lemma_py_from_keeps_words(s, pos + 1, state, true, at_line_start, line_has_content, leading, separator, out.push(c));
            } else if c == closing && two_at(s, pos + 1, closing) {
                lemma_moved_text(s, pos, pos + 3, out);
                lemma_py_from_keeps_words(s, pos + 3, State::Normal, escaped, at_line_start, line_has_content, leading, separator, out + s.subrange(pos, pos + 3));
            } else {
                lemma_moved_text(s, pos, pos + 1, out);
                lemma_py_from_keeps_words(s, pos + 1, state, escaped, at_line_start, line_has_content, leading, separator, out.push(c));
            }
        },
    }
}

/// Compaction keeps the words of the text: where whitespace stood between
/// two characters that are not whitespace, some whitespace still stands,
/// and where none stood, none is put; only the amount of whitespace
/// changes.
pub proof fn lemma_compress_keeps_words(s: Seq<char>)
    ensures
        collapsed(py_compressed(s)) == collapsed(s),
{
    assert(all_ws(Seq::<char>::empty()));
    lemma_py_from_keeps_words(s, 0, State::Normal, false, true, false, Seq::empty(), false, Seq::empty());
    assert(Seq::<char>::empty() + owed(true, Seq::<char>::empty(), false) + s.subrange(0, s.len() as int) == s);
}

/// Preserves Python indentation and logical newlines while removing blank
/// physical lines and redundant intra-line whitespace outside literals.
pub fn compress(input: &str) -> (output: String)
    ensures
        output@ == py_compressed(input@),
{
    let chars = chars_of(input);
    let ghost s = chars@;
    let n = chars.len();
    let mut out: Vec<char> = Vec::new();
    let mut state = State::Normal;
    let mut escaped = false;
    let mut at_line_start = true;
    let mut line_has_content = false;
    let mut pending_leading: Vec<char> = Vec::new();
    let mut pending_separator = false;
    let mut pos: usize = 0;

    while pos < n
        invariant
            s == chars@,
            s == input@,
            n == s.len(),
            pos <= n,
            py_from(
                s,
                pos as int,
                state,
                escaped,
                at_line_start,
                line_has_content,
                pending_leading@,
                pending_separator,
                out@,
            ) == py_compressed(s),
        decreases n - pos,
    {
        let character = chars[pos];
        match state {
            State::Normal => {
                if character == '\r' || character == '\n' {
                    let k = take_newline(&chars, pos);
                    if line_has_content {
                        push_range(&mut out, &chars, pos, pos + k);
                    }
                    pending_leading = Vec::new();
                    pending_separator = false;
                    at_line_start = true;
                    line_has_content = false;
                    pos += k;
                    continue;
                }
                if is_whitespace(character) {
                    if at_line_start {
                        pending_leading.push(character);
                    } else {
                        pending_separator = true;
                    }
                    pos += 1;
                    continue;
                }
                if at_line_start {
                    out.append(&mut pending_leading);
                    at_line_start = false;
                } else if pending_separator {
                    out.push(' ');
                }
                pending_separator = false;
                line_has_content = true;

                if (character == '\'' || character == '"') && next_two_are(&chars, pos + 1, character) {
                    push_range(&mut out, &chars, pos, pos + 3);
                    state = if character == '\'' {
                        State::TripleSingleQuoted
                    } else {
                        State::TripleDoubleQuoted
                    };
                    escaped = false;
                    pos += 3;
                } else {
                    out.push(character);
                    state = if character == '\'' {
                        State::SingleQuoted
                    } else if character == '"' {
                        State::DoubleQuoted
                    } else if character == '#' {
                        State::Comment
                    } else {
                        State::Normal
                    };
                    escaped = false;
                    pos += 1;
                }
            },
            State::Comment => {
                if character == '\r' || character == '\n' {
                    let k = take_newline(&chars, pos);
                    push_range(&mut out, &chars, pos, pos + k);
                    state = State::Normal;
                    at_line_start = true;
                    line_has_content = false;
                    pos += k;
                } else {
                    out.push(character);
                    pos += 1;
                }
            },
            State::SingleQuoted | State::DoubleQuoted => {
                out.push(character);
                let closing = if state == State::SingleQuoted {
                    '\''
                } else {
                    '"'
                };
                if escaped {
                    escaped = false;
                } else if character == '\\' {
                    escaped = true;
                } else if character == closing {
                    state = State::Normal;
                }
                pos += 1;
            },
            State::TripleSingleQuoted | State::TripleDoubleQuoted => {
                let closing = if state == State::TripleSingleQuoted {
                    '\''
                } else {
                    '"'
                };
                if escaped {
                    out.push(character);
                    escaped = false;
                    pos += 1;
                } else if character == '\\' {
                    out.push(character);
                    escaped = true;
                    pos += 1;
                } else if character == closing && next_two_are(&chars, pos + 1, closing) {
                    push_range(&mut out, &chars, pos, pos + 3);
                    state = State::Normal;
                    pos += 3;
                } else {
                    out.push(character);
                    pos += 1;
                }
            },
        }
    }
    string_of(&out)
}

proof fn lemma_move_range(s: Seq<char>, pos: int, q: int, out: Seq<char>)
    requires
        0 <= pos <= q <= s.len(),
    ensures
        without_ws(out + s.subrange(pos, q)) + without_ws(s.subrange(q, s.len() as int))
            == without_ws(out) + without_ws(s.subrange(pos, s.len() as int)),
{
    lemma_without_ws_concat(out, s.subrange(pos, q));
    lemma_without_ws_split(s, pos, q, s.len() as int);
}

proof fn lemma_move_char(s: Seq<char>, pos: int, out: Seq<char>)
    requires
        0 <= pos < s.len(),
    ensures
        without_ws(out.push(s[pos])) + without_ws(s.subrange(pos + 1, s.len() as int))
            == without_ws(out) + without_ws(s.subrange(pos, s.len() as int)),
{
    lemma_without_ws_push(out, s[pos]);
    lemma_without_ws_step(s, pos);
}

/// Dropping or emitting whitespace from `s[pos..q]` keeps the
/// whitespace-free text of output and rest together.
proof fn lemma_skip_ws_range(s: Seq<char>, pos: int, q: int, out: Seq<char>, o: Seq<char>)
    requires
        0 <= pos <= q <= s.len(),
        all_ws(s.subrange(pos, q)),
        without_ws(o) == without_ws(out),
    ensures
        without_ws(o) + without_ws(s.subrange(q, s.len() as int)) == without_ws(out)
            + without_ws(s.subrange(pos, s.len() as int)),
{
    lemma_without_ws_split(s, pos, q, s.len() as int);
    lemma_without_ws_all_ws(s.subrange(pos, q));
    assert(Seq::<char>::empty() + without_ws(s.subrange(q, s.len() as int)) == without_ws(
        s.subrange(q, s.len() as int),
    ));
}

proof fn lemma_append_ws(out: Seq<char>, w: Seq<char>)
    requires
        all_ws(w),
    ensures
        without_ws(out + w) == without_ws(out),
{
    lemma_without_ws_concat(out, w);
    lemma_without_ws_all_ws(w);
    assert(without_ws(out) + Seq::<char>::empty() == without_ws(out));
}

/// Whatever state the compactor is in, the characters it still has to read
/// reach the output with only their whitespace changed.
pub proof fn lemma_py_from_keeps_text(
    s: Seq<char>,
    pos: int,
    state: State,
    escaped: bool,
    at_line_start: bool,
    line_has_content: bool,
    leading: Seq<char>,
    separator: bool,
    out: Seq<char>,
)
    requires
        0 <= pos <= s.len(),
        all_ws(leading),
    ensures
        without_ws(
            py_from(s, pos, state, escaped, at_line_start, line_has_content, leading, separator, out),
        ) == without_ws(out) + without_ws(s.subrange(pos, s.len() as int)),
    decreases s.len() - pos,
{
    let len = s.len() as int;
    if pos == len {
        assert(s.subrange(pos, len) == Seq::<char>::empty());
        assert(without_ws(Seq::<char>::empty()) == Seq::<char>::empty());
        assert(without_ws(out) + Seq::<char>::empty() == without_ws(out));
        return;
    }
    let c = s[pos];
    match state {
        State::Normal => {
            if is_newline(c) {
                let k = newline_len(s, pos);
                let o = if line_has_content {
                    out + s.subrange(pos, pos + k)
                } else {
                    out
                };
                assert(all_ws(s.subrange(pos, pos + k)));
                if line_has_content {
                    lemma_append_ws(out, s.subrange(pos, pos + k));
                }
                lemma_skip_ws_range(s, pos, pos + k, out, o);
                lemma_py_from_keeps_text(s, pos + k, State::Normal, escaped, true, false, Seq::empty(), false, o);
            } else if is_ws(c) {
                assert(all_ws(s.subrange(pos, pos + 1)));
                lemma_skip_ws_range(s, pos, pos + 1, out, out);
                if at_line_start {
                    assert(all_ws(leading.push(c)));
                    lemma_py_from_keeps_text(s, pos + 1, State::Normal, escaped, at_line_start, line_has_content, leading.push(c), separator, out);
                } else {
                    lemma_py_from_keeps_text(s, pos + 1, State::Normal, escaped, at_line_start, line_has_content, leading, true, out);
                }
            } else {
                let o = if at_line_start {
                    out + leading
                } else if separator {
                    out.push(' ')
                } else {
                    out
                };
                let l = if at_line_start {
                    Seq::empty()
                } else {
                    leading
                };
                assert(without_ws(o) == without_ws(out)) by {
                    if at_line_start {
                        lemma_append_ws(out, leading);
                    } else if separator {
                        lemma_without_ws_push(out, ' ');
                        assert(without_ws(out) + Seq::<char>::empty() == without_ws(out));
                    }
                }
                assert(all_ws(l));
                if (c == '\'' || c == '"') && two_at(s, pos + 1, c) {
                    let st = if c == '\'' {
                        State::TripleSingleQuoted
                    } else {
                        State::TripleDoubleQuoted
                    };
                    lemma_py_from_keeps_text(s, pos + 3, st, false, false, true, l, false, o + s.subrange(pos, pos + 3));
                    lemma_move_range(s, pos, pos + 3, o);
                } else {
                    let st = if c == '\'' {
                        State::SingleQuoted
                    } else if c == '"' {
                        State::DoubleQuoted
                    } else if c == '#' {
                        State::Comment
                    } else {
                        State::Normal
                    };
                    lemma_py_from_keeps_text(s, pos + 1, st, false, false, true, l, false, o.push(c));
                    lemma_move_char(s, pos, o);
                }
            }
        },
        State::Comment => {
            if is_newline(c) {
                let k = newline_len(s, pos);
                lemma_py_from_keeps_text(s, pos + k, State::Normal, escaped, true, false, leading, separator, out + s.subrange(pos, pos + k));
                lemma_move_range(s, pos, pos + k, out);
            } else {
                lemma_py_from_keeps_text(s, pos + 1, State::Comment, escaped, at_line_start, line_has_content, leading, separator, out.push(c));
                lemma_move_char(s, pos, out);
            }
        },
        State::SingleQuoted | State::DoubleQuoted => {
            let closing = if state == State::SingleQuoted {
                '\''
            } else {
                '"'
            };
            let o = out.push(c);
            lemma_move_char(s, pos, out);
            if escaped {
                lemma_py_from_keeps_text(s, pos + 1, state, false, at_line_start, line_has_content, leading, separator, o);
            } else if c == '\\' {
                lemma_py_from_keeps_text(s, pos + 1, state, true, at_line_start, line_has_content, leading, separator, o);
            } else if c == closing {
                lemma_py_from_keeps_text(s, pos + 1, State::Normal, escaped, at_line_start, line_has_content, leading, separator, o);
            } else {
                lemma_py_from_keeps_text(s, pos + 1, state, escaped, at_line_start, line_has_content, leading, separator, o);
            }
        },
        State::TripleSingleQuoted | State::TripleDoubleQuoted => {
            let closing = if state == State::TripleSingleQuoted {
                '\''
            } else {
                '"'
            };
            if escaped {
                lemma_move_char(s, pos, out);
                lemma_py_from_keeps_text(s, pos + 1, state, false, at_line_start, line_has_content, leading, separator, out.push(c));
            } else if c == '\\' {
                lemma_move_char(s, pos, out);
                lemma_py_from_keeps_text(s, pos + 1, state, true, at_line_start, line_has_content, leading, separator, out.push(c));
            } else if c == closing && two_at(s, pos + 1, closing) {
                lemma_py_from_keeps_text(s, pos + 3, State::Normal, escaped, at_line_start, line_has_content, leading, separator, out + s.subrange(pos, pos + 3));
                lemma_move_range(s, pos, pos + 3, out);
            } else {
                lemma_move_char(s, pos, out);
                lemma_py_from_keeps_text(s, pos + 1, state, escaped, at_line_start, line_has_content, leading, separator, out.push(c));
            }
        },
    }
}

/// Compaction only changes whitespace: removing all whitespace from the
/// compacted text gives the input with all whitespace removed.
pub proof fn lemma_compress_changes_only_whitespace(s: Seq<char>)
    ensures
        without_ws(py_compressed(s)) == without_ws(s),
{
    lemma_py_from_keeps_text(s, 0, State::Normal, false, true, false, Seq::empty(), false, Seq::empty());
    assert(s.subrange(0, s.len() as int) == s);
    assert(without_ws(Seq::<char>::empty()) == Seq::<char>::empty());
    assert(Seq::<char>::empty() + without_ws(s) == without_ws(s));
}

/// `chars[start]` and `chars[start + 1]` both exist and equal `expected`.
pub fn next_two_are(chars: &Vec<char>, start: usize, expected: char) -> (r: bool)
    ensures
        r == two_at(chars@, start as int, expected),
{
    start < chars.len() && chars.len() - start >= 2 && chars[start] == expected && chars[start
        + 1] == expected
}

/// Length of the line break starting at `chars[pos]`: 2 for `\r\n`, else 1.
pub fn take_newline(chars: &Vec<char>, pos: usize) -> (k: usize)
    requires
        pos < chars.len(),
    ensures
        k == newline_len(chars@, pos as int),
        pos + k <= chars.len(),
{
    if chars[pos] == '\r' && pos + 1 < chars.len() && chars[pos + 1] == '\n' {
        2
    } else {
        1
    }
}


/// What the compactor has written stays at the front of its output.
proof fn lemma_py_keeps_written(
    s: Seq<char>,
    pos: int,
    state: State,
    escaped: bool,
    als: bool,
    lhc: bool,
    leading: Seq<char>,
    sep: bool,
    out: Seq<char>,
)
    ensures
        out.len() <= py_from(s, pos, state, escaped, als, lhc, leading, sep, out).len(),
        py_from(s, pos, state, escaped, als, lhc, leading, sep, out).take(out.len() as int) == out,
    decreases s.len() - pos,
{
    if 0 <= pos < s.len() {
        let c = s[pos];
        match state {
            State::Normal => {
                if is_newline(c) {
                    let k = newline_len(s, pos);
                    let o = if lhc {
                        out + s.subrange(pos, pos + k)
                    } else {
                        out
                    };
                    assert(o.take(out.len() as int) == out);
                    lemma_py_keeps_written(s, pos + k, State::Normal, escaped, true, false, Seq::empty(), false, o);
                } else if is_ws(c) {
                    if als {
                        lemma_py_keeps_written(s, pos + 1, State::Normal, escaped, als, lhc, leading.push(c), sep, out);
                    } else {
                        lemma_py_keeps_written(s, pos + 1, State::Normal, escaped, als, lhc, leading, true, out);
                    }
                } else {
                    let o = if als {
                        out + leading
                    } else if sep {
                        out.push(' ')
                    } else {
                        out
                    };
                    assert(o.take(out.len() as int) == out);
                    let l = if als {
                        Seq::<char>::empty()
                    } else {
                        leading
                    };
                    if (c == '\'' || c == '"') && two_at(s, pos + 1, c) {
                        let o2 = o + s.subrange(pos, pos + 3);
                        assert(o2.take(out.len() as int) == out);
                        let st = if c == '\'' {
                            State::TripleSingleQuoted
                        } else {
                            State::TripleDoubleQuoted
                        };
                        lemma_py_keeps_written(s, pos + 3, st, false, false, true, l, false, o2);
                    } else {
                        let o2 = o.push(c);
                        assert(o2.take(out.len() as int) == out);
                        let st = if c == '\'' {
                            State::SingleQuoted
                        } else if c == '"' {
                            State::DoubleQuoted
                        } else if c == '#' {
                            State::Comment
                        } else {
                            State::Normal
                        };
                        lemma_py_keeps_written(s, pos + 1, st, false, false, true, l, false, o2);
                    }
                }
            },
            State::Comment => {
                if is_newline(c) {
                    let k = newline_len(s, pos);
                    let o = out + s.subrange(pos, pos + k);
                    assert(o.take(out.len() as int) == out);
                    lemma_py_keeps_written(s, pos + k, State::Normal, escaped, true, false, leading, sep, o);
                } else {
                    let o = out.push(c);
                    assert(o.take(out.len() as int) == out);
                    lemma_py_keeps_written(s, pos + 1, State::Comment, escaped, als, lhc, leading, sep, o);
                }
            },
            State::SingleQuoted | State::DoubleQuoted => {
                let closing = if state == State::SingleQuoted {
                    '\''
                } else {
                    '"'
                };
                let o = out.push(c);
                assert(o.take(out.len() as int) == out);
                if escaped {
                    lemma_py_keeps_written(s, pos + 1, state, false, als, lhc, leading, sep, o);
                } else if c == '\\' {
                    lemma_py_keeps_written(s, pos + 1, state, true, als, lhc, leading, sep, o);
                } else if c == closing {
                    lemma_py_keeps_written(s, pos + 1, State::Normal, escaped, als, lhc, leading, sep, o);
                } else {
                    lemma_py_keeps_written(s, pos + 1, state, escaped, als, lhc, leading, sep, o);
                }
            },
            State::TripleSingleQuoted | State::TripleDoubleQuoted => {
                let closing = if state == State::TripleSingleQuoted {
                    '\''
                } else {
                    '"'
                };
                if !escaped && c != '\\' && c == closing && two_at(s, pos + 1, closing) {
                    let o = out + s.subrange(pos, pos + 3);
                    assert(o.take(out.len() as int) == out);
                    lemma_py_keeps_written(s, pos + 3, State::Normal, escaped, als, lhc, leading, sep, o);
                } else {
                    let o = out.push(c);
                    assert(o.take(out.len() as int) == out);
                    if escaped {
                        lemma_py_keeps_written(s, pos + 1, state, false, als, lhc, leading, sep, o);
                    } else if c == '\\' {
                        lemma_py_keeps_written(s, pos + 1, state, true, als, lhc, leading, sep, o);
                    } else {
                        lemma_py_keeps_written(s, pos + 1, state, escaped, als, lhc, leading, sep, o);
                    }
                }
            },
        }
    }
}

/// The compactor's flags and output at one position.
pub struct PyPoint {
    pub escaped: bool,
    pub at_line_start: bool,
    pub line_has_content: bool,
    pub leading: Seq<char>,
    pub separator: bool,
    pub out: Seq<char>,
}

/// Code without quotes and `#` leaves the compactor in its normal state.
proof fn lemma_py_plain_run(s: Seq<char>, i: int, j: int, at: PyPoint) -> (r: PyPoint)
    requires
        0 <= i <= j < s.len(),
        s[j] != '\n',
        forall|k: int| i <= k < j ==> #[trigger] s[k] != '\'' && s[k] != '"' && s[k] != '#',
    ensures
        py_from(s, i, State::Normal, at.escaped, at.at_line_start, at.line_has_content, at.leading, at.separator, at.out)
            == py_from(s, j, State::Normal, r.escaped, r.at_line_start, r.line_has_content, r.leading, r.separator, r.out),
    decreases j - i,
{
    if i >= j {
        at
    } else {
        let c = s[i];
        assert(c != '\'' && c != '"' && c != '#');
        if is_newline(c) {
            let k = newline_len(s, i);
            assert(i + k <= j);
            let o = if at.line_has_content {
                at.out + s.subrange(i, i + k)
            } else {
                at.out
            };
            let next = PyPoint {
                escaped: at.escaped,
                at_line_start: true,
                line_has_content: false,
                leading: Seq::empty(),
                separator: false,
                out: o,
            };
            lemma_py_plain_run(s, i + k, j, next)
        } else if is_ws(c) {
            let next = if at.at_line_start {
                PyPoint { leading: at.leading.push(c), ..at }
            } else {
                PyPoint { separator: true, ..at }
            };
            lemma_py_plain_run(s, i + 1, j, next)
        } else {
            let o = if at.at_line_start {
                at.out + at.leading
            } else if at.separator {
                at.out.push(' ')
            } else {
                at.out
            };
            let l = if at.at_line_start {
                Seq::<char>::empty()
            } else {
                at.leading
            };
            let next = PyPoint {
                escaped: false,
                at_line_start: false,
                line_has_content: true,
                leading: l,
                separator: false,
                out: o.push(c),
            };
            lemma_py_plain_run(s, i + 1, j, next)
        }
    }
}


/// The quote that closes a string in `state`.
pub open spec fn closing_of(state: State) -> char {
    if state == State::SingleQuoted || state == State::TripleSingleQuoted {
        '\''
    } else {
        '"'
    }
}

/// Inside a string, its body is copied one character at a time, escapes
/// included.
proof fn lemma_py_quoted_run(s: Seq<char>, i: int, j: int, state: State, at: PyPoint)
    requires
        0 <= i <= j <= s.len(),
        state == State::SingleQuoted || state == State::DoubleQuoted || state == State::TripleSingleQuoted
            || state == State::TripleDoubleQuoted,
        literal_body(s, closing_of(state), i, j),
    ensures
        py_from(s, i, state, false, at.at_line_start, at.line_has_content, at.leading, at.separator, at.out)
            == py_from(
            s,
            j,
            state,
            false,
            at.at_line_start,
            at.line_has_content,
            at.leading,
            at.separator,
            at.out + s.subrange(i, j),
        ),
    decreases j - i,
{
    let a = at.at_line_start;
    let h = at.line_has_content;
    let l = at.leading;
    let sp = at.separator;
    if i == j {
        assert(at.out + s.subrange(i, j) == at.out);
    } else if s[i] == '\\' {
        let o2 = at.out.push(s[i]).push(s[i + 1]);
        assert(py_from(s, i, state, false, a, h, l, sp, at.out) == py_from(s, i + 1, state, true, a, h, l, sp, at.out.push(s[i])));
        assert(py_from(s, i + 1, state, true, a, h, l, sp, at.out.push(s[i])) == py_from(s, i + 2, state, false, a, h, l, sp, o2));
        lemma_py_quoted_run(s, i + 2, j, state, PyPoint { out: o2, ..at });
        assert(o2 + s.subrange(i + 2, j) == at.out + s.subrange(i, j));
    } else {
        assert(py_from(s, i, state, false, a, h, l, sp, at.out) == py_from(s, i + 1, state, false, a, h, l, sp, at.out.push(s[i])));
        lemma_py_quoted_run(s, i + 1, j, state, PyPoint { out: at.out.push(s[i]), ..at });
        assert(at.out.push(s[i]) + s.subrange(i + 1, j) == at.out + s.subrange(i, j));
    }
}

/// A Python string opened by a single `'` or `"` (not a triple quote) is
/// copied to the output unchanged, quotes and escapes included: the
/// compacted text of `p + q + t + q + rest` contains `q + t + q`, for code
/// `p` without quotes and `#`, and any nonempty string body `t` (each `\\`
/// escapes the next character, and `q` occurs only so escaped).
pub proof fn lemma_quoted_string_kept(p: Seq<char>, quote: char, t: Seq<char>, rest: Seq<char>) -> (at: int)
    requires
        quote == '\'' || quote == '"',
        forall|k: int| 0 <= k < p.len() ==> #[trigger] p[k] != '\'' && p[k] != '"' && p[k] != '#',
        t.len() > 0,
        literal_body(t, quote, 0, t.len() as int),
    ensures
        ({
            let out = py_compressed(p + seq![quote] + t + seq![quote] + rest);
            &&& 0 <= at
            &&& at + t.len() + 2 <= out.len()
            &&& out.subrange(at, at + t.len() + 2) == seq![quote] + t + seq![quote]
        }),
{
    let s = p + seq![quote] + t + seq![quote] + rest;
    let j = p.len() as int;
    assert forall|k: int| 0 <= k < j implies #[trigger] s[k] != '\'' && s[k] != '"' && s[k] != '#' by {
        assert(s[k] == p[k]);
    }
    assert(s[j] == quote);
    let start = PyPoint {
        escaped: false,
        at_line_start: true,
        line_has_content: false,
        leading: Seq::empty(),
        separator: false,
        out: Seq::empty(),
    };
    let r = lemma_py_plain_run(s, 0, j, start);
    let o = if r.at_line_start {
        r.out + r.leading
    } else if r.separator {
        r.out.push(' ')
    } else {
        r.out
    };
    let l = if r.at_line_start {
        Seq::<char>::empty()
    } else {
        r.leading
    };
    let state = if quote == '\'' {
        State::SingleQuoted
    } else {
        State::DoubleQuoted
    };
    assert(s[j + 1] == t[0]);
    assert(!two_at(s, j + 1, quote));
    assert(!is_newline(quote) && !is_ws(quote));
    let inside = PyPoint {
        escaped: false,
        at_line_start: false,
        line_has_content: true,
        leading: l,
        separator: false,
        out: o.push(quote),
    };
    assert(py_from(s, j, State::Normal, r.escaped, r.at_line_start, r.line_has_content, r.leading, r.separator, r.out)
        == py_from(s, j + 1, state, false, false, true, l, false, o.push(quote)));
    let b = j + 1 + t.len();
    assert(s.subrange(j + 1, b) == t);
    assert(t[0] != quote);
    lemma_literal_body_moved(s, j + 1, t, quote, 0);
    lemma_py_quoted_run(s, j + 1, b, state, inside);
    assert(s[b] == quote);
    let written = o.push(quote) + t + seq![quote];
    assert((o.push(quote) + t).push(quote) == written);
    assert(py_from(s, b, state, false, false, true, l, false, o.push(quote) + t) == py_from(
        s,
        b + 1,
        State::Normal,
        false,
        false,
        true,
        l,
        false,
        written,
    ));
    lemma_py_keeps_written(s, b + 1, State::Normal, false, false, true, l, false, written);
    let out = py_compressed(s);
    assert(out.take(written.len() as int) == written);
    assert(written.subrange(o.len() as int, written.len() as int) == seq![quote] + t + seq![quote]);
    assert(out.subrange(o.len() as int, o.len() + t.len() + 2int) == written.subrange(
        o.len() as int,
        written.len() as int,
    ));
    o.len() as int
}


/// Inside a comment, characters other than line breaks are copied one by
/// one.
proof fn lemma_py_copy_run(s: Seq<char>, i: int, j: int, state: State, at: PyPoint)
    requires
        0 <= i <= j <= s.len(),
        state == State::Comment,
        forall|k: int| i <= k < j ==> !is_newline(#[trigger] s[k]),
    ensures
        py_from(s, i, state, false, at.at_line_start, at.line_has_content, at.leading, at.separator, at.out)
            == py_from(
            s,
            j,
            state,
            false,
            at.at_line_start,
            at.line_has_content,
            at.leading,
            at.separator,
            at.out + s.subrange(i, j),
        ),
    decreases j - i,
{
    if i == j {
        assert(at.out + s.subrange(i, j) == at.out);
    } else {
        lemma_py_copy_run(s, i + 1, j, state, PyPoint { out: at.out.push(s[i]), ..at });
        assert(at.out.push(s[i]) + s.subrange(i + 1, j) == at.out + s.subrange(i, j));
    }
}

/// Plain code `p` at the start of `s`: where the compactor stands after it,
/// and the output it has before the character at `p.len()`.
proof fn lemma_py_after_plain(s: Seq<char>, p: Seq<char>) -> (r: PyPoint)
    requires
        p.len() < s.len(),
        s.take(p.len() as int) == p,
        s[p.len() as int] != '\n',
        forall|k: int| 0 <= k < p.len() ==> #[trigger] p[k] != '\'' && p[k] != '"' && p[k] != '#',
    ensures
        py_compressed(s) == py_from(
            s,
            p.len() as int,
            State::Normal,
            r.escaped,
            r.at_line_start,
            r.line_has_content,
            r.leading,
            r.separator,
            r.out,
        ),
{
    let j = p.len() as int;
    assert forall|k: int| 0 <= k < j implies #[trigger] s[k] != '\'' && s[k] != '"' && s[k] != '#' by {
        assert(s[k] == s.take(j)[k]);
    }
    let start = PyPoint {
        escaped: false,
        at_line_start: true,
        line_has_content: false,
        leading: Seq::empty(),
        separator: false,
        out: Seq::empty(),
    };
    lemma_py_plain_run(s, 0, j, start)
}

/// The output written before the content character at a point.
pub open spec fn content_out(r: PyPoint) -> Seq<char> {
    if r.at_line_start {
        r.out + r.leading
    } else if r.separator {
        r.out.push(' ')
    } else {
        r.out
    }
}

/// A Python comment after code without quotes and `#` is copied to the
/// output unchanged up to and including its `\n`: the compacted text of
/// `p + "#" + t + "\n" + rest` contains `"#" + t + "\n"`, for `t` without
/// line breaks.
pub proof fn lemma_comment_kept(p: Seq<char>, t: Seq<char>, rest: Seq<char>) -> (at: int)
    requires
        forall|k: int| 0 <= k < p.len() ==> #[trigger] p[k] != '\'' && p[k] != '"' && p[k] != '#',
        forall|k: int| 0 <= k < t.len() ==> !is_newline(#[trigger] t[k]),
    ensures
        ({
            let out = py_compressed(p + seq!['#'] + t + seq!['\n'] + rest);
            let piece = seq!['#'] + t + seq!['\n'];
            &&& 0 <= at
            &&& at + piece.len() <= out.len()
            &&& out.subrange(at, at + piece.len()) == piece
        }),
{
    let s = p + seq!['#'] + t + seq!['\n'] + rest;
    let j = p.len() as int;
    assert(s.take(j) == p);
    assert(s[j] == '#');
    let r = lemma_py_after_plain(s, p);
    let o = content_out(r);
    let l = if r.at_line_start {
        Seq::<char>::empty()
    } else {
        r.leading
    };
    assert(!is_ws('#') && !is_newline('#'));
    assert(py_from(s, j, State::Normal, r.escaped, r.at_line_start, r.line_has_content, r.leading, r.separator, r.out)
        == py_from(s, j + 1, State::Comment, false, false, true, l, false, o.push('#')));
    let b = j + 1 + t.len();
    assert forall|k: int| j + 1 <= k < b implies !is_newline(#[trigger] s[k]) by {
        assert(s[k] == t[k - j - 1]);
    }
    let inside = PyPoint { escaped: false, at_line_start: false, line_has_content: true, leading: l, separator: false, out: o.push('#') };
    lemma_py_copy_run(s, j + 1, b, State::Comment, inside);
    assert(s.subrange(j + 1, b) == t);
    assert(s[b] == '\n');
    assert(newline_len(s, b) == 1);
    assert(s.subrange(b, b + 1) == seq!['\n']);
    let written = o.push('#') + t + seq!['\n'];
    assert(py_from(s, b, State::Comment, false, false, true, l, false, o.push('#') + t) == py_from(
        s,
        b + 1,
        State::Normal,
        false,
        true,
        false,
        l,
        false,
        written,
    ));
    lemma_py_keeps_written(s, b + 1, State::Normal, false, true, false, l, false, written);
    let out = py_compressed(s);
    let piece = seq!['#'] + t + seq!['\n'];
    assert(written.subrange(o.len() as int, written.len() as int) == piece);
    assert(out.subrange(o.len() as int, o.len() + piece.len() as int) == out.take(written.len() as int).subrange(
        o.len() as int,
        o.len() + piece.len() as int,
    ));
    o.len() as int
}

/// A triple-quoted Python string after code without quotes and `#` is
/// copied to the output unchanged, quotes and escapes included: the
/// compacted text of `p + q q q + t + q q q + rest` contains
/// `q q q + t + q q q`, for any string body `t` (each `\\` escapes the next
/// character, and `q` occurs only so escaped).
pub proof fn lemma_triple_quoted_string_kept(p: Seq<char>, quote: char, t: Seq<char>, rest: Seq<char>) -> (at: int)
    requires
        quote == '\'' || quote == '"',
        forall|k: int| 0 <= k < p.len() ==> #[trigger] p[k] != '\'' && p[k] != '"' && p[k] != '#',
        literal_body(t, quote, 0, t.len() as int),
    ensures
        ({
            let q3 = seq![quote, quote, quote];
            let out = py_compressed(p + q3 + t + q3 + rest);
            let piece = q3 + t + q3;
            &&& 0 <= at
            &&& at + piece.len() <= out.len()
            &&& out.subrange(at, at + piece.len()) == piece
        }),
{
    let q3 = seq![quote, quote, quote];
    let s = p + q3 + t + q3 + rest;
    let j = p.len() as int;
    assert(s.take(j) == p);
    assert(s[j] == quote && s[j + 1] == quote && s[j + 2] == quote);
    let r = lemma_py_after_plain(s, p);
    let o = content_out(r);
    let l = if r.at_line_start {
        Seq::<char>::empty()
    } else {
        r.leading
    };
    let state = if quote == '\'' {
        State::TripleSingleQuoted
    } else {
        State::TripleDoubleQuoted
    };
    assert(two_at(s, j + 1, quote));
    assert(s.subrange(j, j + 3) == q3);
    assert(py_from(s, j, State::Normal, r.escaped, r.at_line_start, r.line_has_content, r.leading, r.separator, r.out)
        == py_from(s, j + 3, state, false, false, true, l, false, o + q3));
    let b = j + 3 + t.len();
    assert(s.subrange(j + 3, b) == t);
    lemma_literal_body_moved(s, j + 3, t, quote, 0);
    let inside = PyPoint { escaped: false, at_line_start: false, line_has_content: true, leading: l, separator: false, out: o + q3 };
    lemma_py_quoted_run(s, j + 3, b, state, inside);
    assert(s[b] == quote && s[b + 1] == quote && s[b + 2] == quote);
    assert(s.subrange(b, b + 3) == q3);
    let written = o + q3 + t + q3;
    assert(py_from(s, b, state, false, false, true, l, false, o + q3 + t) == py_from(
        s,
        b + 3,
        State::Normal,
        false,
        false,
        true,
        l,
        false,
        written,
    ));
    lemma_py_keeps_written(s, b + 3, State::Normal, false, false, true, l, false, written);
    let out = py_compressed(s);
    let piece = q3 + t + q3;
    assert(written.subrange(o.len() as int, written.len() as int) == piece);
    assert(out.subrange(o.len() as int, o.len() + piece.len() as int) == out.take(written.len() as int).subrange(
        o.len() as int,
        o.len() + piece.len() as int,
    ));
    o.len() as int
}


/// What holds of the compactor's point between lines: on a line without
/// content so far, the output is empty or ends a line.
pub open spec fn between_lines_ok(at: PyPoint) -> bool {
    !at.line_has_content ==> (at.out.len() == 0 || is_newline(at.out.last()))
}

/// Code without quotes and `#`, followed through: the point keeps
/// `between_lines_ok`, the output is nonempty once code with content was
/// read, and right after a `\n` the point stands at the start of a line
/// with no indentation read yet.
proof fn lemma_py_tracked_run(s: Seq<char>, i: int, j: int, at: PyPoint) -> (r: PyPoint)
    requires
        0 <= i <= j < s.len(),
        s[j] != '\n',
        forall|k: int| i <= k < j ==> #[trigger] s[k] != '\'' && s[k] != '"' && s[k] != '#',
        between_lines_ok(at),
    ensures
        py_from(s, i, State::Normal, at.escaped, at.at_line_start, at.line_has_content, at.leading, at.separator, at.out)
            == py_from(s, j, State::Normal, r.escaped, r.at_line_start, r.line_has_content, r.leading, r.separator, r.out),
        between_lines_ok(r),
        at.out.len() > 0 ==> r.out.len() > 0,
        forall|k: int| i <= k < j && !is_ws(#[trigger] s[k]) ==> r.out.len() > 0,
        i < j && s[j - 1] == '\n' ==> r.at_line_start && r.leading == Seq::<char>::empty() && !r.line_has_content,
        i == j ==> r == at,
    decreases j - i,
{
    if i >= j {
        at
    } else {
        let c = s[i];
        assert(c != '\'' && c != '"' && c != '#');
        if is_newline(c) {
            let k = newline_len(s, i);
            assert(i + k <= j);
            let nl = s.subrange(i, i + k);
            let o = if at.line_has_content {
                at.out + nl
            } else {
                at.out
            };
            if at.line_has_content {
                assert(o.last() == s[i + k - 1]);
            }
            let next = PyPoint {
                escaped: at.escaped,
                at_line_start: true,
                line_has_content: false,
                leading: Seq::empty(),
                separator: false,
                out: o,
            };
            let r = lemma_py_tracked_run(s, i + k, j, next);
            assert(is_newline(c) && !is_ws(c) ==> false) by {
                assert(c == '\r' || c == '\n');
            }
            r
        } else if is_ws(c) {
            let next = if at.at_line_start {
                PyPoint { leading: at.leading.push(c), ..at }
            } else {
                PyPoint { separator: true, ..at }
            };
            lemma_py_tracked_run(s, i + 1, j, next)
        } else {
            let o = if at.at_line_start {
                at.out + at.leading
            } else if at.separator {
                at.out.push(' ')
            } else {
                at.out
            };
            let l = if at.at_line_start {
                Seq::<char>::empty()
            } else {
                at.leading
            };
            let next = PyPoint {
                escaped: false,
                at_line_start: false,
                line_has_content: true,
                leading: l,
                separator: false,
                out: o.push(c),
            };
            lemma_py_tracked_run(s, i + 1, j, next)
        }
    }
}

/// Whitespace other than line breaks at the start of a line is gathered as
/// indentation.
proof fn lemma_py_indent_run(s: Seq<char>, i: int, j: int, at: PyPoint)
    requires
        0 <= i <= j <= s.len(),
        at.at_line_start,
        forall|k: int| i <= k < j ==> is_ws(#[trigger] s[k]) && !is_newline(s[k]),
    ensures
        py_from(s, i, State::Normal, at.escaped, true, at.line_has_content, at.leading, at.separator, at.out)
            == py_from(
            s,
            j,
            State::Normal,
            at.escaped,
            true,
            at.line_has_content,
            at.leading + s.subrange(i, j),
            at.separator,
            at.out,
        ),
    decreases j - i,
{
    if i == j {
        assert(at.leading + s.subrange(i, j) == at.leading);
    } else {
        lemma_py_indent_run(s, i + 1, j, PyPoint { leading: at.leading.push(s[i]), ..at });
        assert(at.leading.push(s[i]) + s.subrange(i + 1, j) == at.leading + s.subrange(i, j));
    }
}

/// Indentation is syntax in Python and is kept: after code that has some
/// content, a line indented by `w` whose first character `x` opens no
/// string or comment reaches the output as `w + x` right after a line
/// break.
pub proof fn lemma_indentation_kept(p: Seq<char>, w: Seq<char>, x: char, rest: Seq<char>) -> (at: int)
    requires
        forall|k: int| 0 <= k < p.len() ==> #[trigger] p[k] != '\'' && p[k] != '"' && p[k] != '#',
        exists|k: int| 0 <= k < p.len() && !is_ws(#[trigger] p[k]),
        forall|k: int| 0 <= k < w.len() ==> is_ws(#[trigger] w[k]) && !is_newline(w[k]),
        !is_ws(x),
        x != '\'' && x != '"' && x != '#',
    ensures
        ({
            let out = py_compressed(p + seq!['\n'] + w + seq![x] + rest);
            &&& 1 <= at
            &&& at + w.len() + 1 <= out.len()
            &&& is_newline(out[at - 1])
            &&& out.subrange(at, at + w.len() + 1) == w + seq![x]
        }),
{
    let s = p + seq!['\n'] + w + seq![x] + rest;
    let j = p.len() as int;
    let a = j + 1;
    let b = a + w.len();
    assert(s[j] == '\n');
    assert(s[b] == x);
    assert(!is_newline(x)) by {
        if x == '\r' || x == '\n' {
            assert(is_ws(x));
        }
    }
    assert(s[a] != '\n') by {
        if w.len() > 0 {
            assert(s[a] == w[0]);
        }
    }
    assert forall|k: int| 0 <= k < a implies #[trigger] s[k] != '\'' && s[k] != '"' && s[k] != '#' by {
        if k < j {
            assert(s[k] == p[k]);
        }
    }
    let kc = choose|k: int| 0 <= k < p.len() && !is_ws(#[trigger] p[k]);
    assert(s[kc] == p[kc]);
    let start = PyPoint {
        escaped: false,
        at_line_start: true,
        line_has_content: false,
        leading: Seq::empty(),
        separator: false,
        out: Seq::empty(),
    };
    let r = lemma_py_tracked_run(s, 0, a, start);
    assert(r.out.len() > 0);
    assert(is_newline(r.out.last()));
    assert forall|k: int| a <= k < b implies is_ws(#[trigger] s[k]) && !is_newline(s[k]) by {
        assert(s[k] == w[k - a]);
    }
    lemma_py_indent_run(s, a, b, r);
    assert(s.subrange(a, b) == w);
    assert(Seq::<char>::empty() + w == w);
    let written = r.out + w + seq![x];
    assert((r.out + w).push(x) == written);
    assert(py_from(s, b, State::Normal, r.escaped, true, false, w, r.separator, r.out) == py_from(
        s,
        b + 1,
        State::Normal,
        false,
        false,
        true,
        Seq::empty(),
        false,
        written,
    ));
    lemma_py_keeps_written(s, b + 1, State::Normal, false, false, true, Seq::empty(), false, written);
    let out = py_compressed(s);
    let at = r.out.len() as int;
    assert(out.take(written.len() as int) == written);
    assert(out[at - 1] == written[at - 1]);
    assert(written[at - 1] == r.out.last());
    assert(written.subrange(at, written.len() as int) == w + seq![x]);
    assert(out.subrange(at, at + w.len() + 1int) == written.subrange(at, written.len() as int));
    at
}

} // verus!
