//! Language routing for the optional whitespace compaction of bundled files.
use vstd::prelude::*;

use crate::text::{all_ws, ascii_lower_seq, ascii_lowercase_range, chars_of, is_ws, seq_eq_str};

pub mod brace;
pub mod python;
pub mod words;

verus! {

/// Which compactor a file gets.
#[derive(Clone, Copy, Debug, PartialEq, Eq, Structural)]
pub enum Compaction {
    Python,
    Brace,
    Unchanged,
}

/// Position of the last `.` in `s`, if any.
pub open spec fn last_dot(s: Seq<char>) -> Option<int>
    decreases s.len(),
{
    if s.len() == 0 {
        None
    } else if s.last() == '.' {
        Some(s.len() - 1)
    } else {
        last_dot(s.drop_last())
    }
}

/// The extension of a file name, as `Path::extension` defines it: the part
/// after the final `.`, unless there is no `.`, the name is `..`, or its
/// only `.` is the first character.
pub open spec fn file_extension(name: Seq<char>) -> Option<Seq<char>> {
    if name == ".."@ {
        None
    } else {
        match last_dot(name) {
            Some(i) => if i == 0 {
                None
            } else {
                Some(name.subrange(i + 1, name.len() as int))
            },
            None => None,
        }
    }
}

pub open spec fn is_python_extension(e: Seq<char>) -> bool {
    e == "py"@ || e == "pyi"@ || e == "pyw"@
}

pub open spec fn is_brace_extension(e: Seq<char>) -> bool {
    ||| e == "php"@
    ||| e == "php3"@
    ||| e == "php4"@
    ||| e == "php5"@
    ||| e == "php7"@
    ||| e == "php8"@
    ||| e == "phtml"@
    ||| e == "inc"@
    ||| e == "c"@
    ||| e == "h"@
    ||| e == "cc"@
    ||| e == "cpp"@
    ||| e == "cxx"@
    ||| e == "hxx"@
    ||| e == "hpp"@
    ||| e == "cs"@
    ||| e == "java"@
    ||| e == "kt"@
    ||| e == "kts"@
    ||| e == "rs"@
    ||| e == "css"@
    ||| e == "scss"@
    ||| e == "less"@
    ||| e == "json"@
}

/// The compactor for a file of the given name, chosen by its extension
/// compared without regard to ASCII case.
pub open spec fn compaction_for(name: Seq<char>) -> Compaction {
    match file_extension(name) {
        Some(e) => if is_python_extension(ascii_lower_seq(e)) {
            Compaction::Python
        } else if is_brace_extension(ascii_lower_seq(e)) {
            Compaction::Brace
        } else {
            Compaction::Unchanged
        },
        None => Compaction::Unchanged,
    }
}

/// What `safely_compress` returns for a file named `name` holding `input`.
pub open spec fn safely_compressed(name: Seq<char>, input: Seq<char>) -> Seq<char> {
    match compaction_for(name) {
        Compaction::Python => python::py_compressed(input),
        Compaction::Brace => brace::brace_compressed(input),
        Compaction::Unchanged => input,
    }
}

/// Bounds of the extension of `name` inside `name`.
fn extension_bounds(name: &Vec<char>) -> (r: Option<(usize, usize)>)
    ensures
        match r {
            Some((a, b)) => a <= b <= name.len() && file_extension(name@) == Some(
                name@.subrange(a as int, b as int),
            ),
            None => file_extension(name@) is None,
        },
{
    if seq_eq_str(name, "..") {
        return None;
    }
    let mut i = name.len();
    assert(name@.take(i as int) == name@);
    while i > 0 && name[i - 1] != '.'
        invariant
            i <= name.len(),
            last_dot(name@) == last_dot(name@.take(i as int)),
        decreases i,
    {
        assert(name@.take((i - 1) as int) == name@.take(i as int).drop_last());
        i -= 1;
    }
    if i == 0 {
        assert(name@.take(0) == Seq::<char>::empty());
        None
    } else if i == 1 {
        assert(name@.take(1).last() == '.');
        None
    } else {
        assert(name@.take(i as int).last() == '.');
        Some((i, name.len()))
    }
}

/// Compacts `input` when the extension of `file_name` names a language whose
/// compactor keeps its syntax; every other file stays unchanged.
pub fn safely_compress(file_name: &str, input: &str) -> (output: String)
    ensures
        output@ == safely_compressed(file_name@, input@),
        without_ws(output@) == without_ws(input@),
        words::collapsed(output@) == words::collapsed(input@),
{
    let name = chars_of(file_name);
    let kind = match extension_bounds(&name) {
        Some((a, b)) => {
            let e = ascii_lowercase_range(&name, a, b);
            if seq_eq_str(&e, "py") || seq_eq_str(&e, "pyi") || seq_eq_str(&e, "pyw") {
                Compaction::Python
            } else if seq_eq_str(&e, "php") || seq_eq_str(&e, "php3") || seq_eq_str(&e, "php4")
                || seq_eq_str(&e, "php5") || seq_eq_str(&e, "php7") || seq_eq_str(&e, "php8")
                || seq_eq_str(&e, "phtml") || seq_eq_str(&e, "inc") || seq_eq_str(&e, "c")
                || seq_eq_str(&e, "h") || seq_eq_str(&e, "cc") || seq_eq_str(&e, "cpp")
                || seq_eq_str(&e, "cxx") || seq_eq_str(&e, "hxx") || seq_eq_str(&e, "hpp")
                || seq_eq_str(&e, "cs") || seq_eq_str(&e, "java") || seq_eq_str(&e, "kt")
                || seq_eq_str(&e, "kts") || seq_eq_str(&e, "rs") || seq_eq_str(&e, "css")
                || seq_eq_str(&e, "scss") || seq_eq_str(&e, "less") || seq_eq_str(&e, "json") {
                Compaction::Brace
            } else {
                Compaction::Unchanged
            }
        },
        None => Compaction::Unchanged,
    };
    assert(kind == compaction_for(file_name@));
    match kind {
        // Python indentation and logical newlines are syntax. Its dedicated
        // compactor preserves both while reducing safe whitespace.
        Compaction::Python => {
            proof {
                python::lemma_compress_changes_only_whitespace(input@);
                python::lemma_compress_keeps_words(input@);
            }
            python::compress(input)
        },
        // These languages delimit blocks/statements independently of ordinary
        // whitespace. Their compactor still preserves lexical boundaries.
        Compaction::Brace => {
            proof {
                brace::lemma_compress_changes_only_whitespace(input@);
                brace::lemma_compress_keeps_words(input@);
            }
            brace::compress(input)
        },
        // Unknown or whitespace-sensitive formats remain unchanged.
        Compaction::Unchanged => String::from_str(input),
    }
}

/// `s` with every whitespace character removed.
pub open spec fn without_ws(s: Seq<char>) -> Seq<char>
    decreases s.len(),
{
    if s.len() == 0 {
        s
    } else if is_ws(s[0]) {
        without_ws(s.drop_first())
    } else {
        seq![s[0]] + without_ws(s.drop_first())
    }
}

pub proof fn lemma_without_ws_concat(a: Seq<char>, b: Seq<char>)
    ensures
        without_ws(a + b) == without_ws(a) + without_ws(b),
    decreases a.len(),
{
    if a.len() == 0 {
        assert(a + b == b);
        assert(without_ws(a) == Seq::<char>::empty());
    } else {
        lemma_without_ws_concat(a.drop_first(), b);
        assert((a + b).drop_first() == a.drop_first() + b);
        assert((a + b)[0] == a[0]);
    }
}

pub proof fn lemma_without_ws_single(c: char)
    ensures
        without_ws(seq![c]) == (if is_ws(c) {
            Seq::<char>::empty()
        } else {
            seq![c]
        }),
{
    assert(seq![c].drop_first() == Seq::<char>::empty());
    assert(without_ws(Seq::<char>::empty()) == Seq::<char>::empty());
}

/// Removing whitespace from `out.push(c)`.
pub proof fn lemma_without_ws_push(out: Seq<char>, c: char)
    ensures
        without_ws(out.push(c)) == without_ws(out) + (if is_ws(c) {
            Seq::<char>::empty()
        } else {
            seq![c]
        }),
{
    lemma_without_ws_concat(out, seq![c]);
    lemma_without_ws_single(c);
    assert(out.push(c) == out + seq![c]);
}

/// A run of whitespace has no whitespace-free text.
pub proof fn lemma_without_ws_all_ws(s: Seq<char>)
    requires
        all_ws(s),
    ensures
        without_ws(s) == Seq::<char>::empty(),
    decreases s.len(),
{
    if s.len() > 0 {
        assert(all_ws(s.drop_first())) by {
            assert forall|i: int| 0 <= i < s.len() - 1 implies is_ws(#[trigger] s.drop_first()[i]) by {
                assert(s.drop_first()[i] == s[i + 1]);
            }
        }
        lemma_without_ws_all_ws(s.drop_first());
    }
}

/// Splitting a range of `s` at `j` splits its whitespace-free text.
pub proof fn lemma_without_ws_split(s: Seq<char>, i: int, j: int, k: int)
    requires
        0 <= i <= j <= k <= s.len(),
    ensures
        without_ws(s.subrange(i, k)) == without_ws(s.subrange(i, j)) + without_ws(
            s.subrange(j, k),
        ),
{
    lemma_without_ws_concat(s.subrange(i, j), s.subrange(j, k));
    assert(s.subrange(i, j) + s.subrange(j, k) == s.subrange(i, k));
}

/// The whitespace-free text of `s[pos..]` starts with `s[pos]` unless that
/// character is whitespace.
pub proof fn lemma_without_ws_step(s: Seq<char>, pos: int)
    requires
        0 <= pos < s.len(),
    ensures
        without_ws(s.subrange(pos, s.len() as int)) == (if is_ws(s[pos]) {
            Seq::<char>::empty()
        } else {
            seq![s[pos]]
        }) + without_ws(s.subrange(pos + 1, s.len() as int)),
{
    lemma_without_ws_split(s, pos, pos + 1, s.len() as int);
    assert(s.subrange(pos, pos + 1) == seq![s[pos]]);
    lemma_without_ws_single(s[pos]);
}

} // verus!
