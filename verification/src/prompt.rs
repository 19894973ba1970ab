//! Reading the answers to the interactive questions: operation, extraction
//! mode, compression, paths, and completion of fixed answers.
use vstd::prelude::*;

use crate::embedder::char_end;
use crate::text::{
    ascii_lower_seq, ascii_lowercase_range, chars_of, first_non_ws, lemma_trim_start, seq_eq_str,
    string_of_range, trim, trim_bounds, utf8_len, utf8_len_range,
};

verus! {

/// What to do.
#[derive(Clone, Copy, Debug, PartialEq, Eq, Structural)]
pub enum Operation {
    Embed,
    Extract,
}

/// How to extract a bundle.
#[derive(Clone, Copy, Debug, PartialEq, Eq, Structural)]
pub enum ExtractionMode {
    Raw,
    WithModification,
}

/// Answers completed for the operation question.
pub const OPERATION_CHOICES: [&'static str; 2] = ["embed", "extract"];

/// Answers completed for the compression question.
pub const COMPRESSION_CHOICES: [&'static str; 2] = ["yes", "no"];

/// Answers completed for the extraction mode question.
pub const EXTRACTION_MODE_CHOICES: [&'static str; 2] = ["raw", "with_modification"];

/// An answer without surrounding whitespace, in ASCII lowercase.
pub open spec fn normalized_answer(answer: Seq<char>) -> Seq<char> {
    ascii_lower_seq(trim(answer))
}

fn normalize_answer(answer: &str) -> (r: Vec<char>)
    ensures
        r@ == normalized_answer(answer@),
{
    let chars = chars_of(answer);
    assert(chars@.subrange(0, chars@.len() as int) == chars@);
    let (a, b) = trim_bounds(&chars, 0, chars.len());
    ascii_lowercase_range(&chars, a, b)
}

pub open spec fn parse_operation_spec(answer: Seq<char>) -> Option<Operation> {
    let a = normalized_answer(answer);
    if a == "embed"@ {
        Some(Operation::Embed)
    } else if a == "extract"@ {
        Some(Operation::Extract)
    } else {
        None
    }
}

/// `embed` or `extract`, in any ASCII case and with surrounding whitespace.
pub fn parse_operation(answer: &str) -> (r: Option<Operation>)
    ensures
        r == parse_operation_spec(answer@),
{
    let a = normalize_answer(answer);
    if seq_eq_str(&a, "embed") {
        Some(Operation::Embed)
    } else if seq_eq_str(&a, "extract") {
        Some(Operation::Extract)
    } else {
        None
    }
}

pub open spec fn parse_extraction_mode_spec(answer: Seq<char>) -> Option<ExtractionMode> {
    let a = normalized_answer(answer);
    if a == "raw"@ || a == "r"@ {
        Some(ExtractionMode::Raw)
    } else if a == "with_modification"@ || a == "with modification"@ || a
        == "with modifications"@ || a == "modification"@ || a == "modified"@ || a == "modify"@
        || a == "m"@ {
        Some(ExtractionMode::WithModification)
    } else {
        None
    }
}

/// `raw`/`r`, or one of the spellings of "with modification".
pub fn parse_extraction_mode(answer: &str) -> (r: Option<ExtractionMode>)
    ensures
        r == parse_extraction_mode_spec(answer@),
{
    let a = normalize_answer(answer);
    if seq_eq_str(&a, "raw") || seq_eq_str(&a, "r") {
        Some(ExtractionMode::Raw)
    } else if seq_eq_str(&a, "with_modification") || seq_eq_str(&a, "with modification")
        || seq_eq_str(&a, "with modifications") || seq_eq_str(&a, "modification") || seq_eq_str(
        &a,
        "modified",
    ) || seq_eq_str(&a, "modify") || seq_eq_str(&a, "m") {
        Some(ExtractionMode::WithModification)
    } else {
        None
    }
}

pub open spec fn parse_compression_answer_spec(answer: Seq<char>) -> Option<bool> {
    let a = normalized_answer(answer);
    if a == "y"@ || a == "yes"@ {
        Some(true)
    } else if a == ""@ || a == "n"@ || a == "no"@ {
        Some(false)
    } else {
        None
    }
}

/// `y`/`yes` for compression; `n`/`no` or an empty answer (the default) for
/// none.
pub fn parse_compression_answer(answer: &str) -> (r: Option<bool>)
    ensures
        r == parse_compression_answer_spec(answer@),
{
    let a = normalize_answer(answer);
    if seq_eq_str(&a, "y") || seq_eq_str(&a, "yes") {
        Some(true)
    } else if seq_eq_str(&a, "") || seq_eq_str(&a, "n") || seq_eq_str(&a, "no") {
        Some(false)
    } else {
        None
    }
}

/// `s` without one leading `quote` and then without one trailing `quote`.
pub open spec fn without_quotes(s: Seq<char>, quote: char) -> Seq<char> {
    let a = if s.len() > 0 && s[0] == quote {
        s.drop_first()
    } else {
        s
    };
    if a.len() > 0 && a.last() == quote {
        a.drop_last()
    } else {
        a
    }
}

/// Removes one `quote` at each end where there is one, so that a complete
/// pair and a lone opening quote are both accepted.
pub fn strip_optional_quotes(input: &str, quote: char) -> (r: String)
    ensures
        r@ == without_quotes(input@, quote),
{
    let chars = chars_of(input);
    let mut a: usize = 0;
    let mut b = chars.len();
    if b > 0 && chars[0] == quote {
        a = 1;
    }
    if b > a && chars[b - 1] == quote {
        b -= 1;
    }
    proof {
        let s = chars@;
        if s.len() > 0 && s[0] == quote {
            assert(s.drop_first() == s.subrange(1, s.len() as int));
        } else {
            assert(s == s.subrange(0, s.len() as int));
        }
    }
    string_of_range(&chars, a, b)
}

/// What `clean_input` returns for a typed path.
pub open spec fn cleaned_path(input: Seq<char>) -> Seq<char> {
    without_quotes(without_quotes(trim(input), '"'), '\'')
}

/// A typed path without surrounding whitespace and quotes. Windows path
/// completion adds a leading quote for paths with spaces, so a lone opening
/// quote is accepted as well as a pair.
pub fn clean_input(input: &str) -> (r: String)
    ensures
        r@ == cleaned_path(input@),
{
    let chars = chars_of(input);
    assert(chars@.subrange(0, chars@.len() as int) == chars@);
    let (a, b) = trim_bounds(&chars, 0, chars.len());
    let trimmed = string_of_range(&chars, a, b);
    let unquoted = strip_optional_quotes(trimmed.as_str(), '"');
    strip_optional_quotes(unquoted.as_str(), '\'')
}

/// The choices that start with `prefix`, in order.
pub open spec fn matching_choices(choices: Seq<Seq<char>>, prefix: Seq<char>) -> Seq<Seq<char>>
    decreases choices.len(),
{
    if choices.len() == 0 {
        Seq::empty()
    } else {
        let rest = matching_choices(choices.drop_last(), prefix);
        let c = choices.last();
        if prefix.len() <= c.len() && c.take(prefix.len() as int) == prefix {
            rest.push(c)
        } else {
            rest
        }
    }
}

/// Completion of a fixed answer: for the text typed before byte offset `pos`
/// of `line`, the byte offset where the answer starts (after leading
/// whitespace) and the choices that start with the typed answer in ASCII
/// lowercase.
pub fn complete_choices(line: &str, pos: usize, choices: &[&str]) -> (r: (usize, Vec<String>))
    requires
        char_end(line@, 0, pos as nat) is Some,
    ensures
        ({
            let k = char_end(line@, 0, pos as nat)->0;
            let typed = line@.take(k);
            let j = first_non_ws(typed);
            &&& r.0 == utf8_len(typed.take(j))
            &&& r.1@.map_values(|s: String| s@) == matching_choices(
                choices@.map_values(|c: &str| c@),
                ascii_lower_seq(typed.skip(j)),
            )
        }),
{
    let chars = chars_of(line);
    let ghost k = char_end(line@, 0, pos as nat)->0;
    proof {
        crate::embedder::lemma_char_end(line@, 0, pos as nat);
        assert(chars@.subrange(0, k) == chars@.take(k));
    }
    let end = char_index_at(&chars, pos);
    let ghost typed = chars@.take(k);
    proof {
        lemma_trim_start(typed);
    }
    let mut start: usize = 0;
    while start < end && crate::text::is_whitespace(chars[start])
        invariant
            start <= end == k <= chars.len(),
            typed == chars@.take(k),
            start <= first_non_ws(typed),
            0 <= first_non_ws(typed) <= typed.len(),
            first_non_ws(typed) < typed.len() ==> !crate::text::is_ws(typed[first_non_ws(typed)]),
        decreases end - start,
    {
        assert(typed[start as int] == chars@[start as int]);
        start += 1;
    }
    assert(start == first_non_ws(typed)) by {
        if start < first_non_ws(typed) {
            assert(crate::text::all_ws(typed.take(first_non_ws(typed))));
            assert(typed.take(first_non_ws(typed))[start as int] == chars@[start as int]);
        }
    }
    proof {
        crate::text::lemma_utf8_len_prefix(chars@, start as int, end as int);
        crate::text::lemma_utf8_len_prefix(chars@, 0, start as int);
        assert(chars@.take(end as int) == chars@.subrange(0, end as int));
        assert(chars@.subrange(0, start as int) == chars@.take(start as int));
        assert(typed.take(start as int) == chars@.take(start as int));
        assert(chars@.take(0) == Seq::<char>::empty());
    }
    let start_byte = utf8_len_range(&chars, 0, start);
    let prefix = ascii_lowercase_range(&chars, start, end);
    assert(chars@.subrange(start as int, end as int) == typed.skip(start as int));
    let ghost cs = choices@.map_values(|c: &str| c@);
    let mut candidates: Vec<String> = Vec::new();
    let mut i: usize = 0;
    assert(cs.take(0) == Seq::<Seq<char>>::empty());
    while i < choices.len()
        invariant
            i <= choices.len(),
            cs == choices@.map_values(|c: &str| c@),
            candidates@.map_values(|s: String| s@) == matching_choices(cs.take(i as int), prefix@),
        decreases choices.len() - i,
    {
        let ghost before = candidates@.map_values(|s: String| s@);
        let choice = chars_of(choices[i]);
        assert(cs[i as int] == choice@);
        assert(cs.take(i + 1).drop_last() == cs.take(i as int));
        assert(cs.take(i + 1).last() == cs[i as int]);
        let starts = prefix.len() <= choice.len() && crate::text::matches_at_exec(&choice, 0, &prefix);
        if starts {
            assert(choice@.take(prefix@.len() as int) == choice@.subrange(0, prefix@.len() as int));
            let s = String::from_str(choices[i]);
            candidates.push(s);
            assert(candidates@.map_values(|s: String| s@) == before.push(choice@));
        } else {
            proof {
                if prefix@.len() <= choice@.len() {
                    assert(choice@.take(prefix@.len() as int) == choice@.subrange(0, prefix@.len() as int));
                }
            }
        }
        i += 1;
    }
    assert(cs.take(choices.len() as int) == cs);
    (start_byte, candidates)
}

/// The character index at which the first `pos` UTF-8 bytes of `chars` end.
fn char_index_at(chars: &Vec<char>, pos: usize) -> (k: usize)
    requires
        char_end(chars@, 0, pos as nat) is Some,
    ensures
        char_end(chars@, 0, pos as nat) == Some(k as int),
{
    let mut k: usize = 0;
    let mut left = pos;
    proof {
        crate::embedder::lemma_char_end(chars@, 0, pos as nat);
    }
    while left > 0
        invariant
            k <= chars.len(),
            char_end(chars@, 0, pos as nat) == char_end(chars@, k as int, left as nat),
            char_end(chars@, k as int, left as nat) is Some,
        decreases left,
    {
        let w = crate::text::utf8_width_exec(chars[k]);
        left = left - w;
        k += 1;
    }
    k
}


/// Surrounding whitespace is what `trim` removes: for `x` that neither
/// starts nor ends with whitespace, trimming `w1 + x + w2` gives `x`.
pub proof fn lemma_trim_surrounded(w1: Seq<char>, x: Seq<char>, w2: Seq<char>)
    requires
        crate::text::all_ws(w1),
        crate::text::all_ws(w2),
        x.len() == 0 || (!crate::text::is_ws(x[0]) && !crate::text::is_ws(x.last())),
    ensures
        trim(w1 + x + w2) == x,
    decreases w1.len() + w2.len(),
{
    if w1.len() > 0 {
        let s = w1 + x + w2;
        assert(s[0] == w1[0]);
        assert(s.drop_first() == w1.drop_first() + x + w2);
        assert(crate::text::all_ws(w1.drop_first())) by {
            assert forall|i: int| 0 <= i < w1.drop_first().len() implies crate::text::is_ws(
                #[trigger] w1.drop_first()[i],
            ) by {
                assert(w1.drop_first()[i] == w1[i + 1]);
            }
        }
        lemma_trim_surrounded(w1.drop_first(), x, w2);
        assert(crate::text::trim_start(s) == crate::text::trim_start(s.drop_first()));
    } else if w2.len() > 0 {
        let s = w1 + x + w2;
        assert(s.last() == w2.last());
        assert(s.drop_last() == w1 + x + w2.drop_last());
        assert(crate::text::all_ws(w2.drop_last())) by {
            assert forall|i: int| 0 <= i < w2.drop_last().len() implies crate::text::is_ws(
                #[trigger] w2.drop_last()[i],
            ) by {
                assert(w2.drop_last()[i] == w2[i]);
            }
        }
        lemma_trim_surrounded(w1, x, w2.drop_last());
        assert(w1 + x + w2 == x + w2);
        assert(w1 + x + w2.drop_last() == x + w2.drop_last());
        if x.len() > 0 {
            assert((x + w2)[0] == x[0]);
            assert(crate::text::trim_start(x + w2) == x + w2);
            assert(crate::text::trim_start(x + w2.drop_last()) == x + w2.drop_last());
        } else {
            assert(x + w2 == w2);
            assert(x + w2.drop_last() == w2.drop_last());
            assert(crate::text::trim_start(w2) == crate::text::trim_start(w2.drop_first()));
            lemma_all_ws_trims_away(w2);
            lemma_all_ws_trims_away(w2.drop_last());
        }
    } else {
        assert(w1 + x + w2 == x);
        if x.len() > 0 {
            assert(crate::text::trim_end(x) == x);
        }
    }
}

/// A run of whitespace trims to nothing.
proof fn lemma_all_ws_trims_away(w: Seq<char>)
    requires
        crate::text::all_ws(w),
    ensures
        crate::text::trim_start(w) == Seq::<char>::empty(),
    decreases w.len(),
{
    if w.len() > 0 {
        assert(crate::text::is_ws(w[0]));
        assert(crate::text::all_ws(w.drop_first())) by {
            assert forall|i: int| 0 <= i < w.drop_first().len() implies crate::text::is_ws(
                #[trigger] w.drop_first()[i],
            ) by {
                assert(w.drop_first()[i] == w[i + 1]);
            }
        }
        lemma_all_ws_trims_away(w.drop_first());
    }
}

/// The compression question accepts `y` and `yes` as yes, and `n`, `no` and
/// an empty answer as no, in any ASCII case and with any whitespace around
/// them.
pub proof fn lemma_compression_answers(w1: Seq<char>, x: Seq<char>, w2: Seq<char>)
    requires
        crate::text::all_ws(w1),
        crate::text::all_ws(w2),
        x.len() == 0 || (!crate::text::is_ws(x[0]) && !crate::text::is_ws(x.last())),
    ensures
        ascii_lower_seq(x) == "y"@ || ascii_lower_seq(x) == "yes"@ ==> parse_compression_answer_spec(
            w1 + x + w2,
        ) == Some(true),
        ascii_lower_seq(x) == ""@ || ascii_lower_seq(x) == "n"@ || ascii_lower_seq(x) == "no"@
            ==> parse_compression_answer_spec(w1 + x + w2) == Some(false),
{
    reveal_strlit("y");
    reveal_strlit("yes");
    reveal_strlit("");
    reveal_strlit("n");
    reveal_strlit("no");
    lemma_trim_surrounded(w1, x, w2);
    assert("n"@ != "y"@) by {
        assert("n"@[0] != "y"@[0]);
    }
    assert("no"@.len() != "y"@.len() && "no"@.len() != "yes"@.len());
    assert(""@.len() != "y"@.len() && ""@.len() != "yes"@.len() && "n"@.len() != "yes"@.len());
}

/// The operation question accepts `embed` and `extract`, in any ASCII case
/// and with any whitespace around them.
pub proof fn lemma_operation_answers(w1: Seq<char>, x: Seq<char>, w2: Seq<char>)
    requires
        crate::text::all_ws(w1),
        crate::text::all_ws(w2),
        x.len() == 0 || (!crate::text::is_ws(x[0]) && !crate::text::is_ws(x.last())),
    ensures
        ascii_lower_seq(x) == "embed"@ ==> parse_operation_spec(w1 + x + w2) == Some(Operation::Embed),
        ascii_lower_seq(x) == "extract"@ ==> parse_operation_spec(w1 + x + w2) == Some(
            Operation::Extract,
        ),
{
    reveal_strlit("embed");
    reveal_strlit("extract");
    lemma_trim_surrounded(w1, x, w2);
    assert("extract"@.len() != "embed"@.len());
}

/// The extraction question accepts `raw` and `r` for raw extraction, and
/// `with_modification`, `with modification`, `with modifications`,
/// `modification`, `modified`, `modify` and `m` for extraction with
/// modifications, in any ASCII case and with any whitespace around them.
pub proof fn lemma_extraction_mode_answers(w1: Seq<char>, x: Seq<char>, w2: Seq<char>)
    requires
        crate::text::all_ws(w1),
        crate::text::all_ws(w2),
        x.len() == 0 || (!crate::text::is_ws(x[0]) && !crate::text::is_ws(x.last())),
    ensures
        ascii_lower_seq(x) == "raw"@ || ascii_lower_seq(x) == "r"@ ==> parse_extraction_mode_spec(
            w1 + x + w2,
        ) == Some(ExtractionMode::Raw),
        ascii_lower_seq(x) == "with_modification"@ || ascii_lower_seq(x) == "with modification"@
            || ascii_lower_seq(x) == "with modifications"@ || ascii_lower_seq(x) == "modification"@
            || ascii_lower_seq(x) == "modified"@ || ascii_lower_seq(x) == "modify"@ || ascii_lower_seq(
            x,
        ) == "m"@ ==> parse_extraction_mode_spec(w1 + x + w2) == Some(ExtractionMode::WithModification),
{
    reveal_strlit("raw");
    reveal_strlit("r");
    reveal_strlit("with_modification");
    reveal_strlit("with modification");
    reveal_strlit("with modifications");
    reveal_strlit("modification");
    reveal_strlit("modified");
    reveal_strlit("modify");
    reveal_strlit("m");
    lemma_trim_surrounded(w1, x, w2);
    assert("m"@ != "r"@) by {
        assert("m"@[0] != "r"@[0]);
    }
    assert("with_modification"@.len() == 17 && "with modification"@.len() == 17);
    assert("with modifications"@.len() == 18 && "modification"@.len() == 12);
    assert("modified"@.len() == 8 && "modify"@.len() == 6 && "raw"@.len() == 3 && "r"@.len() == 1);
}


/// A typed path is read without the whitespace around it and without its
/// quotes: a pair of `"` or of `'`, or a lone opening quote as Windows path
/// completion leaves it, for a path `x` that neither starts nor ends with
/// whitespace or a quote.
pub proof fn lemma_typed_path_cleaned(w1: Seq<char>, open: Seq<char>, x: Seq<char>, close: Seq<char>, w2: Seq<char>)
    requires
        crate::text::all_ws(w1),
        crate::text::all_ws(w2),
        x.len() > 0,
        !crate::text::is_ws(x[0]) && x[0] != '"' && x[0] != '\'',
        !crate::text::is_ws(x.last()) && x.last() != '"' && x.last() != '\'',
        open == Seq::<char>::empty() || open == seq!['"'] || open == seq!['\''],
        close == open || close == Seq::<char>::empty(),
    ensures
        cleaned_path(w1 + open + x + close + w2) == x,
{
    let core = open + x + close;
    assert(w1 + open + x + close + w2 == w1 + core + w2);
    assert(core.len() > 0);
    if open.len() > 0 {
        assert(core[0] == open[0]);
    } else {
        assert(core[0] == x[0]);
    }
    if close.len() > 0 {
        assert(core.last() == close[0]);
    } else {
        assert(core.last() == x.last());
    }
    lemma_trim_surrounded(w1, core, w2);
    let a = without_quotes(core, '"');
    if open == seq!['"'] {
        assert(core.drop_first() == x + close);
        if close.len() > 0 {
            assert((x + close).drop_last() == x);
        } else {
            assert(x + close == x);
        }
        assert(a == x);
    } else {
        if close.len() > 0 {
            assert(core.last() != '"');
        }
        assert(a == core);
    }
    let b = without_quotes(a, '\'');
    if open == seq!['\''] {
        assert(core.drop_first() == x + close);
        if close.len() > 0 {
            assert((x + close).drop_last() == x);
        } else {
            assert(x + close == x);
        }
    } else if open == seq!['"'] {
        assert(b == x);
    } else {
        assert(core == x + close);
        assert(close == Seq::<char>::empty());
        assert(x + close == x);
    }
}

/// What a sequence with one more element at its end contains.
proof fn lemma_push_contains(q: Seq<Seq<char>>, x: Seq<char>, c: Seq<char>)
    ensures
        q.push(x).contains(c) <==> (q.contains(c) || c == x),
{
    if q.push(x).contains(c) {
        let i = choose|i: int| 0 <= i < q.push(x).len() && q.push(x)[i] == c;
        if i < q.len() {
            assert(q[i] == c);
        }
    }
    if q.contains(c) {
        let i = choose|i: int| 0 <= i < q.len() && q[i] == c;
        assert(q.push(x)[i] == c);
    }
    if c == x {
        assert(q.push(x)[q.len() as int] == c);
    }
}

/// The completions offered are exactly the choices that start with the
/// typed prefix.
pub proof fn lemma_matching_choices(choices: Seq<Seq<char>>, prefix: Seq<char>, c: Seq<char>)
    ensures
        matching_choices(choices, prefix).contains(c) <==> (choices.contains(c) && prefix.len() <= c.len()
            && c.take(prefix.len() as int) == prefix),
    decreases choices.len(),
{
    if choices.len() > 0 {
        let d = choices.drop_last();
        lemma_matching_choices(d, prefix, c);
        let rest = matching_choices(d, prefix);
        assert(choices == d.push(choices.last()));
        lemma_push_contains(d, choices.last(), c);
        lemma_push_contains(rest, choices.last(), c);
    } else {
        assert(!choices.contains(c));
        assert(!Seq::<Seq<char>>::empty().contains(c));
    }
}
} // verus!
