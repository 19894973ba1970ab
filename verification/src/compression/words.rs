//! The words of a text: its maximal runs of non-whitespace characters. Two
//! texts with the same words in the same order differ only in how much
//! whitespace stands between words, never in where words begin and end.
use vstd::prelude::*;

use crate::text::{all_ws, is_ws};

verus! {

/// The words of `s` in order, one space apart: leading and trailing
/// whitespace dropped and every other run of whitespace written as one
/// space.
pub open spec fn collapsed(s: Seq<char>) -> Seq<char>
    decreases s.len(),
{
    if s.len() == 0 {
        Seq::empty()
    } else {
        let p = s.drop_last();
        let c = s.last();
        if is_ws(c) {
            collapsed(p)
        } else if p.len() > 0 && is_ws(p.last()) && collapsed(p).len() > 0 {
            collapsed(p).push(' ').push(c)
        } else {
            collapsed(p).push(c)
        }
    }
}

/// One space when `p`, else nothing: a whitespace run owed to the output.
pub open spec fn space_if(p: bool) -> Seq<char> {
    if p {
        seq![' ']
    } else {
        Seq::empty()
    }
}

pub open spec fn ends_ws(s: Seq<char>) -> bool {
    s.len() > 0 && is_ws(s.last())
}

pub open spec fn starts_ws(s: Seq<char>) -> bool {
    s.len() > 0 && is_ws(s[0])
}

/// The words `a` followed by the words `b`, a space apart when `gap`.
pub open spec fn joined_words(a: Seq<char>, gap: bool, b: Seq<char>) -> Seq<char> {
    if a.len() == 0 {
        b
    } else if b.len() == 0 {
        a
    } else if gap {
        a + seq![' '] + b
    } else {
        a + b
    }
}

/// A text without words is all whitespace.
pub proof fn lemma_collapsed_empty(s: Seq<char>)
    ensures
        collapsed(s).len() == 0 ==> all_ws(s),
    decreases s.len(),
{
    if s.len() > 0 {
        let p = s.drop_last();
        lemma_collapsed_empty(p);
        if collapsed(s).len() == 0 {
            assert(is_ws(s.last()));
            assert forall|i: int| 0 <= i < s.len() implies is_ws(#[trigger] s[i]) by {
                if i < s.len() - 1 {
                    assert(s[i] == p[i]);
                }
            }
        }
    }
}

/// The words of `x + y`: those of `x`, then those of `y`, where the last
/// word of `x` and the first of `y` are one word unless whitespace stands
/// between them.
pub proof fn lemma_collapsed_concat(x: Seq<char>, y: Seq<char>)
    ensures
        collapsed(x + y) == joined_words(collapsed(x), ends_ws(x) || starts_ws(y), collapsed(y)),
    decreases y.len(),
{
    if y.len() == 0 {
        assert(x + y == x);
    } else {
        let y1 = y.drop_last();
        let c = y.last();
        lemma_collapsed_concat(x, y1);
        assert((x + y).drop_last() == x + y1);
        assert((x + y).last() == c);
        let cx = collapsed(x);
        let c1 = collapsed(y1);
        if y1.len() == 0 {
            assert(x + y1 == x);
            assert(y1 == Seq::<char>::empty());
            if !is_ws(c) {
                assert(collapsed(y) == c1.push(c));
                assert(c1 == Seq::<char>::empty());
                assert(collapsed(y) == seq![c]);
                if cx.len() > 0 && ends_ws(x) {
                    assert(cx.push(' ').push(c) == cx + seq![' '] + seq![c]);
                } else {
                    assert(cx.push(c) == cx + seq![c]);
                }
            }
        } else {
            assert(y1[0] == y[0]);
            assert((x + y1).last() == y1.last());
            if !is_ws(c) {
                lemma_collapsed_empty(y1);
                let g = ends_ws(x) || starts_ws(y);
                if c1.len() == 0 {
                    assert(is_ws(y1[0]));
                    assert(is_ws(y1.last()));
                    assert(collapsed(y) == seq![c]) by {
                        assert(c1.push(c) == seq![c]);
                    }
                    if cx.len() > 0 {
                        assert(collapsed(x + y1) == cx);
                        assert(cx.push(' ').push(c) == cx + seq![' '] + seq![c]);
                    } else {
                        assert(collapsed(x + y1) == c1);
                    }
                } else {
                    let sep = is_ws(y1.last());
                    let cy = if sep {
                        c1.push(' ').push(c)
                    } else {
                        c1.push(c)
                    };
                    assert(collapsed(y) == cy);
                    if cx.len() == 0 {
                        assert(collapsed(x + y1) == c1);
                    } else if g {
                        assert(collapsed(x + y1) == cx + seq![' '] + c1);
                        assert((cx + seq![' '] + c1).push(' ').push(c) == cx + seq![' '] + c1.push(' ').push(c));
                        assert((cx + seq![' '] + c1).push(c) == cx + seq![' '] + c1.push(c));
                    } else {
                        assert(collapsed(x + y1) == cx + c1);
                        assert((cx + c1).push(' ').push(c) == cx + c1.push(' ').push(c));
                        assert((cx + c1).push(c) == cx + c1.push(c));
                    }
                }
            }
        }
    }
}

/// Whitespace at the end of a text holds no words.
pub proof fn lemma_collapsed_trailing_ws(x: Seq<char>, u: Seq<char>)
    requires
        all_ws(u),
    ensures
        collapsed(x + u) == collapsed(x),
{
    lemma_collapsed_concat(x, u);
    lemma_collapsed_no_words(u);
}

/// A run of whitespace has no words.
pub proof fn lemma_collapsed_no_words(u: Seq<char>)
    requires
        all_ws(u),
    ensures
        collapsed(u) == Seq::<char>::empty(),
    decreases u.len(),
{
    if u.len() > 0 {
        let p = u.drop_last();
        assert(all_ws(p)) by {
            assert forall|i: int| 0 <= i < p.len() implies is_ws(#[trigger] p[i]) by {
                assert(p[i] == u[i]);
            }
        }
        lemma_collapsed_no_words(p);
        assert(is_ws(u[u.len() - 1]));
    }
}

/// Between two texts, any nonempty run of whitespace reads the same.
pub proof fn lemma_collapsed_ws_run(x: Seq<char>, u: Seq<char>, v: Seq<char>, y: Seq<char>)
    requires
        u.len() > 0,
        v.len() > 0,
        all_ws(u),
        all_ws(v),
    ensures
        collapsed(x + u + y) == collapsed(x + v + y),
{
    lemma_collapsed_concat(x, u);
    lemma_collapsed_concat(x, v);
    lemma_collapsed_no_words(u);
    lemma_collapsed_no_words(v);
    lemma_collapsed_concat(x + u, y);
    lemma_collapsed_concat(x + v, y);
    assert((x + u).last() == u.last());
    assert((x + v).last() == v.last());
    assert(is_ws(u[u.len() - 1]));
    assert(is_ws(v[v.len() - 1]));
}

/// Whitespace at the start of a text, or after whitespace, reads as
/// nothing.
pub proof fn lemma_collapsed_drop_ws(x: Seq<char>, u: Seq<char>, y: Seq<char>)
    requires
        all_ws(u),
        x.len() == 0 || ends_ws(x),
    ensures
        collapsed(x + u + y) == collapsed(x + y),
{
    lemma_collapsed_concat(x, u);
    lemma_collapsed_no_words(u);
    lemma_collapsed_concat(x + u, y);
    lemma_collapsed_concat(x, y);
    if u.len() > 0 {
        assert((x + u).last() == u.last());
        assert(is_ws(u[u.len() - 1]));
    } else {
        assert(x + u == x);
    }
    if x.len() == 0 {
        assert(collapsed(x) == Seq::<char>::empty());
    }
}

/// `out + s[pos..q] + s[q..]` is `out + s[pos..]`.
pub proof fn lemma_moved_text(s: Seq<char>, pos: int, q: int, out: Seq<char>)
    requires
        0 <= pos <= q <= s.len(),
    ensures
        out + s.subrange(pos, q) + space_if(false) + s.subrange(q, s.len() as int) == out + s.subrange(
            pos,
            s.len() as int,
        ),
        q == pos + 1 ==> out.push(s[pos]) + space_if(false) + s.subrange(q, s.len() as int) == out
            + s.subrange(pos, s.len() as int),
{
    assert(s.subrange(pos, q) + s.subrange(q, s.len() as int) == s.subrange(pos, s.len() as int));
    assert(out + s.subrange(pos, q) + space_if(false) == out + s.subrange(pos, q));
    if q == pos + 1 {
        assert(s.subrange(pos, q) == seq![s[pos]]);
        assert(out.push(s[pos]) == out + s.subrange(pos, q));
    }
}


/// `t[i..j]` is the body of a string literal closed by `quote`: every `\\`
/// escapes the character after it, and no other character is `quote`.
pub open spec fn literal_body(t: Seq<char>, quote: char, i: int, j: int) -> bool
    decreases j - i,
{
    if i >= j {
        i == j
    } else if t[i] == '\\' {
        i + 1 < j && literal_body(t, quote, i + 2, j)
    } else {
        t[i] != quote && literal_body(t, quote, i + 1, j)
    }
}

/// A literal body reads the same wherever it stands.
pub proof fn lemma_literal_body_moved(s: Seq<char>, a: int, t: Seq<char>, quote: char, x: int)
    requires
        0 <= a,
        0 <= x <= t.len(),
        a + t.len() <= s.len(),
        s.subrange(a, a + t.len()) == t,
        literal_body(t, quote, x, t.len() as int),
    ensures
        literal_body(s, quote, a + x, a + t.len()),
    decreases t.len() - x,
{
    if x < t.len() {
        assert(s[a + x] == t[x]);
        if t[x] == '\\' {
            lemma_literal_body_moved(s, a, t, quote, x + 2);
        } else {
            lemma_literal_body_moved(s, a, t, quote, x + 1);
        }
    }
}

} // verus!
