//! How accepted modification records rewrite the files: all line numbers
//! refer to the original file, so records given in any order rewrite the
//! files in the same way, and a replaced last line without a line break
//! gets the file's own line ending.
use vstd::prelude::*;

use crate::embedder::{SpecDocument, SpecEntry};
use crate::modification::{
    applied_files, apply_spec, count_targeted, crlf_breaks_only, duplicate_target, file_keys,
    first_out_of_range, last_with_key, lemma_normalized_endings, no_cr, normalized,
    replacement_from, resolve_targets, rewritten, rewritten_from, rewritten_line, spans_from,
    spans_of, SpecModification, SpecSpan,
};
use crate::round_trip::file_key;
use crate::text::{find_from, lemma_find_from};

verus! {

/// The file index that record `j` targets: the last file with its key.
pub open spec fn target_of(keys: Seq<Seq<char>>, ms: Seq<SpecModification>, j: int) -> usize {
    last_with_key(keys, ms[j].key, keys.len() as int)->Some_0 as usize
}

/// The file index that each record targets.
pub open spec fn targets(keys: Seq<Seq<char>>, ms: Seq<SpecModification>) -> Seq<usize> {
    Seq::new(ms.len(), |j: int| target_of(keys, ms, j))
}

/// Every record names a file that is in the bundle.
pub open spec fn all_known(keys: Seq<Seq<char>>, ms: Seq<SpecModification>) -> bool {
    forall|j: int| 0 <= j < ms.len() ==> #[trigger] last_with_key(keys, ms[j].key, keys.len() as int) is Some
}

/// No two records target the same line of the same file.
pub open spec fn no_duplicate(keys: Seq<Seq<char>>, ms: Seq<SpecModification>) -> bool {
    forall|a: int, b: int|
        #![trigger ms[a], ms[b]]
        0 <= a < ms.len() && 0 <= b < ms.len() && a != b ==> !(target_of(keys, ms, a) == target_of(
            keys,
            ms,
            b,
        ) && ms[a].line_number == ms[b].line_number)
}

/// Resolving the records from `j` on, after the first `j` were resolved,
/// succeeds exactly when all are known and none repeats a target, and then
/// gives the target of each.
proof fn lemma_resolve(keys: Seq<Seq<char>>, ms: Seq<SpecModification>, j: int)
    requires
        0 <= j <= ms.len(),
        forall|x: int| 0 <= x < j ==> #[trigger] last_with_key(keys, ms[x].key, keys.len() as int) is Some,
        forall|a: int, b: int|
            #![trigger ms[a], ms[b]]
            0 <= a < j && 0 <= b < j && a != b ==> !(target_of(keys, ms, a) == target_of(keys, ms, b)
                && ms[a].line_number == ms[b].line_number),
    ensures
        (resolve_targets(keys, ms, j, targets(keys, ms).take(j)) is Ok) == (all_known(keys, ms)
            && no_duplicate(keys, ms)),
        resolve_targets(keys, ms, j, targets(keys, ms).take(j)) is Ok ==> resolve_targets(
            keys,
            ms,
            j,
            targets(keys, ms).take(j),
        )->Ok_0 == targets(keys, ms),
    decreases ms.len() - j,
{
    let t = targets(keys, ms);
    if j == ms.len() {
        assert(t.take(j) == t);
    } else {
        let acc = t.take(j);
        match last_with_key(keys, ms[j].key, keys.len() as int) {
            None => {
                assert(!all_known(keys, ms));
            },
            Some(e) => {
                assert(target_of(keys, ms, j) == e as usize);
                if duplicate_target(ms, acc, j, e as usize) {
                    let i = choose|i: int| 0 <= i < j && #[trigger] acc[i] == e as usize && ms[i].line_number == ms[j].line_number;
                    assert(acc[i] == target_of(keys, ms, i));
                    assert(!no_duplicate(keys, ms)) by {
                        assert(ms[i] == ms[i] && ms[j] == ms[j]);
                    }
                } else {
                    assert(acc.push(e as usize) == t.take(j + 1));
                    assert forall|a: int, b: int|
                        #![trigger ms[a], ms[b]]
                        0 <= a < j + 1 && 0 <= b < j + 1 && a != b implies !(target_of(keys, ms, a)
                            == target_of(keys, ms, b) && ms[a].line_number == ms[b].line_number) by {
                        if a == j && b < j {
                            assert(acc[b] == target_of(keys, ms, b));
                        } else if b == j && a < j {
                            assert(acc[a] == target_of(keys, ms, a));
                        }
                    }
                    lemma_resolve(keys, ms, j + 1);
                }
            },
        }
    }
}

/// Every record targets a line that its file has.
pub open spec fn all_in_range(files: Seq<SpecEntry>, ms: Seq<SpecModification>, entries: Seq<usize>) -> bool {
    forall|j: int|
        0 <= j < ms.len() ==> #[trigger] ms[j].line_number <= spans_of(
            files[entries[j] as int].contents,
        ).len()
}

proof fn lemma_out_of_range(files: Seq<SpecEntry>, ms: Seq<SpecModification>, entries: Seq<usize>, j: int)
    requires
        0 <= j <= ms.len(),
    ensures
        first_out_of_range(files, ms, entries, j) is None <==> forall|x: int|
            j <= x < ms.len() ==> #[trigger] ms[x].line_number <= spans_of(
                files[entries[x] as int].contents,
            ).len(),
    decreases ms.len() - j,
{
    if j < ms.len() {
        lemma_out_of_range(files, ms, entries, j + 1);
    }
}

/// Record `j` is the one for line `line` of file `e`.
pub open spec fn is_record_for(ms: Seq<SpecModification>, entries: Seq<usize>, e: usize, line: nat, j: int) -> bool {
    0 <= j < ms.len() && entries[j] == e && ms[j].line_number == line
}

/// The replacement for a line is that of the first record for it, or none.
proof fn lemma_replacement(ms: Seq<SpecModification>, entries: Seq<usize>, e: usize, line: nat, j0: int)
    requires
        0 <= j0 <= ms.len(),
    ensures
        (forall|x: int| j0 <= x < ms.len() ==> !#[trigger] is_record_for(ms, entries, e, line, x))
            ==> replacement_from(ms, entries, e, line, j0) is None,
        forall|x: int|
            j0 <= x < ms.len() && #[trigger] is_record_for(ms, entries, e, line, x) && (forall|y: int|
                j0 <= y < x ==> !#[trigger] is_record_for(ms, entries, e, line, y)) ==> replacement_from(
                ms,
                entries,
                e,
                line,
                j0,
            ) == Some(ms[x].new_content),
    decreases ms.len() - j0,
{
    if j0 < ms.len() {
        lemma_replacement(ms, entries, e, line, j0 + 1);
        if forall|x: int| j0 <= x < ms.len() ==> !#[trigger] is_record_for(ms, entries, e, line, x) {
            assert(!is_record_for(ms, entries, e, line, j0));
        }
        assert forall|x: int|
            j0 <= x < ms.len() && #[trigger] is_record_for(ms, entries, e, line, x) && (forall|y: int|
                j0 <= y < x ==> !#[trigger] is_record_for(ms, entries, e, line, y)) implies replacement_from(
            ms,
            entries,
            e,
            line,
            j0,
        ) == Some(ms[x].new_content) by {
            if x > j0 {
                assert(!is_record_for(ms, entries, e, line, j0));
            }
        }
    }
}

/// With the same replacement for every line, a file is rewritten the same.
proof fn lemma_rewritten_same(
    c: Seq<char>,
    spans: Seq<SpecSpan>,
    k: int,
    ms: Seq<SpecModification>,
    t: Seq<usize>,
    ms2: Seq<SpecModification>,
    t2: Seq<usize>,
    e: usize,
)
    requires
        forall|line: nat| #[trigger] replacement_from(ms, t, e, line, 0) == replacement_from(ms2, t2, e, line, 0),
    ensures
        rewritten_from(c, spans, k, ms, t, e) == rewritten_from(c, spans, k, ms2, t2, e),
    decreases spans.len() - k,
{
    if 0 <= k < spans.len() {
        assert(replacement_from(ms, t, e, (k + 1) as nat, 0) == replacement_from(ms2, t2, e, (k + 1) as nat, 0));
        assert(rewritten_line(c, spans[k], k, ms, t, e) == rewritten_line(c, spans[k], k, ms2, t2, e));
        lemma_rewritten_same(c, spans, k + 1, ms, t, ms2, t2, e);
    }
}

/// Counting targeted files depends only on which files are targeted.
proof fn lemma_count_same(t: Seq<usize>, t2: Seq<usize>, n: int)
    requires
        forall|e: usize| #[trigger] t.contains(e) <==> t2.contains(e),
    ensures
        count_targeted(t, n) == count_targeted(t2, n),
    decreases n,
{
    if n > 0 {
        lemma_count_same(t, t2, n - 1);
        assert(t.contains((n - 1) as usize) <==> t2.contains((n - 1) as usize));
    }
}

/// Some position of `perm` holds `j`.
pub open spec fn holds_index(perm: Seq<int>, j: int) -> bool {
    exists|i: int| 0 <= i < perm.len() && #[trigger] perm[i] == j
}

/// `perm` lists each index below `n` exactly once.
pub open spec fn is_permutation(perm: Seq<int>, n: nat) -> bool {
    &&& perm.len() == n
    &&& forall|i: int| 0 <= i < n ==> 0 <= #[trigger] perm[i] < n
    &&& forall|i: int, k: int| #![trigger perm[i], perm[k]] 0 <= i < n && 0 <= k < n && i != k ==> perm[i] != perm[k]
    &&& forall|j: int| 0 <= j < n ==> #[trigger] holds_index(perm, j)
}

/// The records `ms` in the order that `perm` gives.
pub open spec fn reordered(ms: Seq<SpecModification>, perm: Seq<int>) -> Seq<SpecModification> {
    Seq::new(ms.len(), |i: int| ms[perm[i]])
}

/// Reordered records give each line the same replacement.
proof fn lemma_replacement_same(
    keys: Seq<Seq<char>>,
    ms: Seq<SpecModification>,
    perm: Seq<int>,
    e: usize,
    line: nat,
)
    requires
        is_permutation(perm, ms.len()),
        no_duplicate(keys, ms),
    ensures
        replacement_from(ms, targets(keys, ms), e, line, 0) == replacement_from(
            reordered(ms, perm),
            targets(keys, reordered(ms, perm)),
            e,
            line,
            0,
        ),
{
    let ms2 = reordered(ms, perm);
    let t = targets(keys, ms);
    let t2 = targets(keys, ms2);
    assert forall|i: int| 0 <= i < ms2.len() implies #[trigger] t2[i] == t[perm[i]] by {
        assert(ms2[i] == ms[perm[i]]);
    }
    lemma_replacement(ms, t, e, line, 0);
    lemma_replacement(ms2, t2, e, line, 0);
    if exists|j: int| #[trigger] is_record_for(ms, t, e, line, j) {
        let j = choose|j: int| #[trigger] is_record_for(ms, t, e, line, j);
        assert forall|y: int| 0 <= y < j implies !#[trigger] is_record_for(ms, t, e, line, y) by {
            if is_record_for(ms, t, e, line, y) {
                assert(t[y] == target_of(keys, ms, y) && t[j] == target_of(keys, ms, j));
                assert(ms[y] == ms[y] && ms[j] == ms[j]);
            }
        }
        assert(holds_index(perm, j));
        let i = choose|i: int| 0 <= i < perm.len() && #[trigger] perm[i] == j;
        assert(is_record_for(ms2, t2, e, line, i));
        assert forall|y: int| 0 <= y < i implies !#[trigger] is_record_for(ms2, t2, e, line, y) by {
            if is_record_for(ms2, t2, e, line, y) {
                assert(perm[y] != perm[i]);
                assert(is_record_for(ms, t, e, line, perm[y]));
                assert(t[perm[y]] == target_of(keys, ms, perm[y]) && t[j] == target_of(keys, ms, j));
                assert(ms[perm[y]] == ms[perm[y]] && ms[j] == ms[j]);
            }
        }
        assert(ms2[i] == ms[j]);
    } else {
        assert forall|i: int| 0 <= i < ms2.len() implies !#[trigger] is_record_for(ms2, t2, e, line, i) by {
            if is_record_for(ms2, t2, e, line, i) {
                assert(is_record_for(ms, t, e, line, perm[i]));
            }
        }
    }
}

/// The order of the records does not matter: records that are accepted
/// give the same files, the same number of modifications and the same
/// number of files modified in any other order, since each names a line of
/// the original file.
pub proof fn lemma_record_order_does_not_matter(doc: SpecDocument, ms: Seq<SpecModification>, perm: Seq<int>)
    requires
        is_permutation(perm, ms.len()),
        apply_spec(doc, ms) is Ok,
    ensures
        apply_spec(doc, reordered(ms, perm)) == apply_spec(doc, ms),
{
    let ms2 = reordered(ms, perm);
    let keys = file_keys(doc.files, 0, Seq::empty())->Ok_0;
    let t = targets(keys, ms);
    let t2 = targets(keys, ms2);
    assert(t.take(0) == Seq::<usize>::empty());
    assert(t2.take(0) == Seq::<usize>::empty());
    lemma_resolve(keys, ms, 0);
    assert forall|i: int| 0 <= i < ms2.len() implies #[trigger] t2[i] == t[perm[i]] && ms2[i] == ms[perm[i]] by {}
    assert(all_known(keys, ms2)) by {
        assert forall|i: int| 0 <= i < ms2.len() implies #[trigger] last_with_key(keys, ms2[i].key, keys.len() as int) is Some by {
            assert(ms2[i] == ms[perm[i]]);
            assert(last_with_key(keys, ms[perm[i]].key, keys.len() as int) is Some);
        }
    }
    assert(no_duplicate(keys, ms2)) by {
        assert forall|a: int, b: int|
            #![trigger ms2[a], ms2[b]]
            0 <= a < ms2.len() && 0 <= b < ms2.len() && a != b implies !(target_of(keys, ms2, a) == target_of(
                keys,
                ms2,
                b,
            ) && ms2[a].line_number == ms2[b].line_number) by {
            assert(perm[a] != perm[b]);
            assert(t2[a] == t[perm[a]] && t2[b] == t[perm[b]]);
            assert(t[perm[a]] == target_of(keys, ms, perm[a]));
            assert(t[perm[b]] == target_of(keys, ms, perm[b]));
            assert(ms[perm[a]] == ms[perm[a]] && ms[perm[b]] == ms[perm[b]]);
        }
    }
    lemma_resolve(keys, ms2, 0);
    lemma_out_of_range(doc.files, ms, t, 0);
    lemma_out_of_range(doc.files, ms2, t2, 0);
    assert forall|i: int| 0 <= i < ms2.len() implies #[trigger] ms2[i].line_number <= spans_of(
        doc.files[t2[i] as int].contents,
    ).len() by {
        assert(ms2[i] == ms[perm[i]]);
        assert(ms[perm[i]].line_number <= spans_of(doc.files[t[perm[i]] as int].contents).len());
    }
    assert forall|e: usize| #[trigger] t.contains(e) <==> t2.contains(e) by {
        if t.contains(e) {
            let j = choose|j: int| 0 <= j < t.len() && t[j] == e;
            assert(holds_index(perm, j));
            let i = choose|i: int| 0 <= i < perm.len() && #[trigger] perm[i] == j;
            assert(t2[i] == e);
        }
        if t2.contains(e) {
            let i = choose|i: int| 0 <= i < t2.len() && t2[i] == e;
            assert(t[perm[i]] == e);
        }
    }
    lemma_count_same(t, t2, doc.files.len() as int);
    assert forall|c: Seq<char>, e: usize| #[trigger] rewritten(c, ms, t, e) == rewritten(c, ms2, t2, e) by {
        assert forall|line: nat| #[trigger] replacement_from(ms, t, e, line, 0) == replacement_from(ms2, t2, e, line, 0) by {
            lemma_replacement_same(keys, ms, perm, e, line);
        }
        lemma_rewritten_same(c, spans_of(c), 0, ms, t, ms2, t2, e);
    }
    assert(applied_files(doc.files, ms, t) =~= applied_files(doc.files, ms2, t2)) by {
        assert forall|k: int| 0 <= k < doc.files.len() implies applied_files(doc.files, ms, t)[k]
            == applied_files(doc.files, ms2, t2)[k] by {
            assert(t.contains(k as usize) <==> t2.contains(k as usize));
            assert(rewritten(doc.files[k].contents, ms, t, k as usize) == rewritten(
                doc.files[k].contents,
                ms2,
                t2,
                k as usize,
            ));
        }
    }
}


/// The number of `\n` in `c` from position `p` on.
pub open spec fn line_breaks_from(c: Seq<char>, p: int) -> nat
    decreases c.len() - p,
{
    if p < 0 || p >= c.len() {
        0
    } else {
        (if c[p] == '\n' {
            1nat
        } else {
            0nat
        }) + line_breaks_from(c, p + 1)
    }
}

proof fn lemma_breaks_skip(c: Seq<char>, p: int, e: int)
    requires
        0 <= p <= e <= c.len(),
        forall|i: int| p <= i < e ==> c[i] != '\n',
    ensures
        line_breaks_from(c, p) == line_breaks_from(c, e),
    decreases e - p,
{
    if p < e {
        lemma_breaks_skip(c, p + 1, e);
    }
}

/// In a text that does not end with `\n`, there is one more line than line
/// breaks, and the last line has no line break of its own.
proof fn lemma_last_span(c: Seq<char>, p: int)
    requires
        0 <= p < c.len(),
        c.last() != '\n',
    ensures
        spans_from(c, p).len() == line_breaks_from(c, p) + 1,
        spans_from(c, p).last().ending_start == c.len(),
        spans_from(c, p).last().ending_end == c.len(),
    decreases c.len() - p,
{
    lemma_find_from(c, p, '\n');
    let e = find_from(c, p, '\n');
    lemma_breaks_skip(c, p, e);
    if e < c.len() {
        assert(e + 1 < c.len());
        lemma_last_span(c, e + 1);
        let rest = spans_from(c, e + 1);
        assert(spans_from(c, p) == seq![spans_from(c, p)[0]] + rest);
        assert(spans_from(c, p).last() == rest.last());
    }
}

/// The rewritten text of the lines from `k0` on ends with the rewritten
/// last line.
proof fn lemma_rewritten_ends_with_last(
    c: Seq<char>,
    spans: Seq<SpecSpan>,
    k0: int,
    ms: Seq<SpecModification>,
    t: Seq<usize>,
    e: usize,
)
    requires
        0 <= k0 < spans.len(),
    ensures
        ({
            let last = spans.len() - 1;
            let r = rewritten_line(c, spans[last], last, ms, t, e);
            let w = rewritten_from(c, spans, k0, ms, t, e);
            r.len() <= w.len() && w.skip(w.len() - r.len()) == r
        }),
    decreases spans.len() - k0,
{
    let last = spans.len() - 1;
    let r = rewritten_line(c, spans[last], last, ms, t, e);
    if k0 == last {
        assert(rewritten_from(c, spans, k0 + 1, ms, t, e) == Seq::<char>::empty());
        assert(rewritten_from(c, spans, k0, ms, t, e) == r + Seq::<char>::empty());
        assert(r + Seq::<char>::empty() == r);
    } else {
        lemma_rewritten_ends_with_last(c, spans, k0 + 1, ms, t, e);
        let w1 = rewritten_from(c, spans, k0 + 1, ms, t, e);
        let a = rewritten_line(c, spans[k0], k0, ms, t, e);
        assert(rewritten_from(c, spans, k0, ms, t, e) == a + w1);
        assert((a + w1).skip((a + w1).len() - r.len()) == w1.skip(w1.len() - r.len()));
    }
}

/// Collecting file keys appends the key of each file in order.
proof fn lemma_file_keys_ok(files: Seq<SpecEntry>, j: int, acc: Seq<Seq<char>>)
    requires
        0 <= j <= files.len(),
    ensures
        file_keys(files, j, acc) matches Ok(ks) ==> {
            &&& ks.len() == acc.len() + files.len() - j
            &&& forall|x: int| j <= x < files.len() ==> ks[acc.len() + x - j] == file_key(#[trigger] files[x])
        },
    decreases files.len() - j,
{
    if j < files.len() {
        if let Ok((_, k)) = crate::embedder::safe_relative_path_spec(files[j].path) {
            lemma_file_keys_ok(files, j + 1, acc.push(k));
            if let Ok(ks) = file_keys(files, j, acc) {
                lemma_file_keys_prefix(files, j + 1, acc.push(k));
                assert(ks[acc.len() as int] == acc.push(k)[acc.len() as int]);
                assert forall|x: int| j <= x < files.len() implies ks[acc.len() + x - j] == file_key(
                    #[trigger] files[x],
                ) by {
                    if x > j {
                        assert(acc.push(k).len() + x - (j + 1) == acc.len() + x - j);
                    }
                }
            }
        }
    }
}

proof fn lemma_file_keys_prefix(files: Seq<SpecEntry>, j: int, acc: Seq<Seq<char>>)
    requires
        0 <= j <= files.len(),
    ensures
        file_keys(files, j, acc) matches Ok(ks) ==> acc.len() <= ks.len() && forall|i: int|
            0 <= i < acc.len() ==> ks[i] == acc[i],
    decreases files.len() - j,
{
    if j < files.len() {
        if let Ok((_, k)) = crate::embedder::safe_relative_path_spec(files[j].path) {
            lemma_file_keys_prefix(files, j + 1, acc.push(k));
            if let Ok(ks) = file_keys(files, j, acc) {
                assert forall|i: int| 0 <= i < acc.len() implies ks[i] == acc[i] by {
                    assert(ks[i] == acc.push(k)[i]);
                }
            }
        }
    }
}

proof fn lemma_last_with_key(keys: Seq<Seq<char>>, key: Seq<char>, n: int, k: int)
    requires
        0 <= k < n <= keys.len(),
        keys[k] == key,
        forall|i: int| k < i < n ==> keys[i] != key,
    ensures
        last_with_key(keys, key, n) == Some(k),
    decreases n,
{
    if n - 1 != k {
        lemma_last_with_key(keys, key, n - 1, k);
    }
}

/// The file a record names, when accepted records are applied, is rewritten
/// line by line with that record's replacement for its line.
proof fn lemma_record_target(doc: SpecDocument, ms: Seq<SpecModification>, k: int, j: int)
    requires
        apply_spec(doc, ms) is Ok,
        0 <= k < doc.files.len(),
        0 <= j < ms.len(),
        file_key(doc.files[k]) == ms[j].key,
        forall|i: int| k < i < doc.files.len() ==> file_key(#[trigger] doc.files[i]) != ms[j].key,
    ensures
        ({
            let t = targets(file_keys(doc.files, 0, Seq::empty())->Ok_0, ms);
            &&& apply_spec(doc, ms)->Ok_0.0.files[k].contents == rewritten(doc.files[k].contents, ms, t, k as usize)
            &&& replacement_from(ms, t, k as usize, ms[j].line_number, 0) == Some(ms[j].new_content)
        }),
{
    let keys = file_keys(doc.files, 0, Seq::empty())->Ok_0;
    lemma_file_keys_ok(doc.files, 0, Seq::empty());
    assert(keys[k] == file_key(doc.files[k]));
    assert forall|i: int| k < i < keys.len() implies keys[i] != ms[j].key by {
        assert(keys[0 + i - 0] == file_key(doc.files[i]));
    }
    lemma_last_with_key(keys, ms[j].key, keys.len() as int, k);
    let t = targets(keys, ms);
    assert(t.take(0) == Seq::<usize>::empty());
    lemma_resolve(keys, ms, 0);
    assert(t[j] == k as usize);
    let e = k as usize;
    let line = ms[j].line_number;
    lemma_replacement(ms, t, e, line, 0);
    assert(is_record_for(ms, t, e, line, j));
    assert forall|y: int| 0 <= y < j implies !#[trigger] is_record_for(ms, t, e, line, y) by {
        if is_record_for(ms, t, e, line, y) {
            assert(t[y] == target_of(keys, ms, y) && t[j] == target_of(keys, ms, j));
            assert(ms[y] == ms[y] && ms[j] == ms[j]);
        }
    }
    assert(t.contains(e));
    assert(apply_spec(doc, ms)->Ok_0.0.files[k] == applied_files(doc.files, ms, t)[k]);
}

/// The rewritten text of the lines from `k0` on holds the rewritten line
/// `l` whole.
proof fn lemma_rewritten_holds_line(
    c: Seq<char>,
    spans: Seq<SpecSpan>,
    k0: int,
    l: int,
    ms: Seq<SpecModification>,
    t: Seq<usize>,
    e: usize,
) -> (x: int)
    requires
        0 <= k0 <= l < spans.len(),
    ensures
        ({
            let r = rewritten_line(c, spans[l], l, ms, t, e);
            let w = rewritten_from(c, spans, k0, ms, t, e);
            &&& 0 <= x
            &&& x + r.len() <= w.len()
            &&& w.subrange(x, x + r.len()) == r
        }),
    decreases l - k0,
{
    let r = rewritten_line(c, spans[l], l, ms, t, e);
    let w1 = rewritten_from(c, spans, k0 + 1, ms, t, e);
    let a = rewritten_line(c, spans[k0], k0, ms, t, e);
    assert(rewritten_from(c, spans, k0, ms, t, e) == a + w1);
    if k0 == l {
        0
    } else {
        let x1 = lemma_rewritten_holds_line(c, spans, k0 + 1, l, ms, t, e);
        assert((a + w1).subrange(a.len() + x1, a.len() + x1 + r.len()) == w1.subrange(x1, x1 + r.len()));
        a.len() + x1
    }
}

/// A replaced line keeps its own line break, and the line breaks inside
/// its replacement are written as that line break (or, on a last line
/// without one, as `\r\n` when the file holds a `\r\n` anywhere and `\n`
/// otherwise): the rewritten file holds the replacement so normalized,
/// followed by the line's own break. Line `n` of a file is the text after
/// its `n - 1`th line break.
pub proof fn lemma_replacement_takes_line_ending(doc: SpecDocument, ms: Seq<SpecModification>, k: int, j: int) -> (at: int)
    requires
        apply_spec(doc, ms) is Ok,
        0 <= k < doc.files.len(),
        0 <= j < ms.len(),
        file_key(doc.files[k]) == ms[j].key,
        forall|i: int| k < i < doc.files.len() ==> file_key(#[trigger] doc.files[i]) != ms[j].key,
        1 <= ms[j].line_number <= spans_of(doc.files[k].contents).len(),
    ensures
        ({
            let c = doc.files[k].contents;
            let out = apply_spec(doc, ms)->Ok_0.0.files[k].contents;
            let sp = spans_of(c)[ms[j].line_number - 1];
            let own = c.subrange(sp.ending_start, sp.ending_end);
            let has_crlf = exists|i: int| 0 <= i < c.len() - 1 && c[i] == '\r' && #[trigger] c[i + 1] == '\n';
            let ending = if own.len() > 0 {
                own
            } else if has_crlf {
                seq!['\r', '\n']
            } else {
                seq!['\n']
            };
            let piece = normalized(ms[j].new_content, ending) + own;
            &&& 0 <= at
            &&& at + piece.len() <= out.len()
            &&& out.subrange(at, at + piece.len()) == piece
            &&& ending == seq!['\n'] || ending == seq!['\r', '\n']
        }),
{
    let c = doc.files[k].contents;
    lemma_record_target(doc, ms, k, j);
    let t = targets(file_keys(doc.files, 0, Seq::empty())->Ok_0, ms);
    let e = k as usize;
    let sps = spans_of(c);
    let l = ms[j].line_number - 1;
    crate::modification::lemma_spans_tile(c, 0);
    let sp = sps[l];
    let own = c.subrange(sp.ending_start, sp.ending_end);
    if own.len() > 0 && l < sps.len() - 1 {
        assert(own == seq!['\n'] || own == seq!['\r', '\n']);
    } else if own.len() > 0 {
        lemma_last_break(c, 0);
        assert(own == seq!['\n'] || own == seq!['\r', '\n']);
    }
    assert((l + 1) as nat == ms[j].line_number);
    let x = lemma_rewritten_holds_line(c, sps, 0, l, ms, t, e);
    x
}

/// The last line break of a text, when its last line has one, is `\n` or
/// `\r\n`.
proof fn lemma_last_break(c: Seq<char>, p: int)
    requires
        0 <= p < c.len(),
    ensures
        ({
            let ss = spans_from(c, p);
            let b = c.subrange(ss.last().ending_start, ss.last().ending_end);
            b.len() == 0 || b == seq!['\n'] || b == seq!['\r', '\n']
        }),
    decreases c.len() - p,
{
    lemma_find_from(c, p, '\n');
    let e = find_from(c, p, '\n');
    let ss = spans_from(c, p);
    if e < c.len() {
        if e + 1 < c.len() {
            lemma_last_break(c, e + 1);
            let rest = spans_from(c, e + 1);
            assert(ss == seq![ss[0]] + rest);
            assert(ss.last() == rest.last());
        } else {
            assert(spans_from(c, e + 1) == Seq::<SpecSpan>::empty());
            assert(ss.len() == 1);
            let b = c.subrange(ss[0].ending_start, ss[0].ending_end);
            if ss[0].ending_start == e {
                assert(b == seq!['\n']);
            } else {
                assert(b == seq!['\r', '\n']);
            }
        }
    }
}

/// A record that replaces the last line of a file, where that line has no
/// line break of its own, writes the line breaks of its replacement as the
/// file writes them elsewhere: the rewritten file ends with the replacement
/// with every line break made `\r\n` when the file holds a `\r\n`
/// anywhere, and `\n` otherwise; so a file never gets mixed line endings
/// this way. The record is the one for the file whose case-folded path it
/// names (the last such file).
pub proof fn lemma_unterminated_last_line_takes_file_ending(
    doc: SpecDocument,
    ms: Seq<SpecModification>,
    k: int,
    j: int,
)
    requires
        apply_spec(doc, ms) is Ok,
        0 <= k < doc.files.len(),
        0 <= j < ms.len(),
        file_key(doc.files[k]) == ms[j].key,
        forall|i: int| k < i < doc.files.len() ==> file_key(#[trigger] doc.files[i]) != ms[j].key,
        doc.files[k].contents.len() > 0,
        doc.files[k].contents.last() != '\n',
        ms[j].line_number == line_breaks_from(doc.files[k].contents, 0) + 1,
    ensures
        ({
            let c = doc.files[k].contents;
            let out = apply_spec(doc, ms)->Ok_0.0.files[k].contents;
            let has_crlf = exists|i: int| 0 <= i < c.len() - 1 && c[i] == '\r' && #[trigger] c[i + 1] == '\n';
            let ending = if has_crlf {
                seq!['\r', '\n']
            } else {
                seq!['\n']
            };
            let r = normalized(ms[j].new_content, ending);
            &&& r.len() <= out.len()
            &&& out.skip(out.len() - r.len()) == r
            &&& has_crlf ==> crlf_breaks_only(r)
            &&& !has_crlf ==> no_cr(r)
        }),
{
    let c = doc.files[k].contents;
    lemma_record_target(doc, ms, k, j);
    let t = targets(file_keys(doc.files, 0, Seq::empty())->Ok_0, ms);
    let e = k as usize;
    let sp = spans_of(c);
    lemma_last_span(c, 0);
    let last = sp.len() - 1;
    let line = ms[j].line_number;
    assert(line == (last + 1) as nat);
    let has_crlf = exists|i: int| 0 <= i < c.len() - 1 && c[i] == '\r' && #[trigger] c[i + 1] == '\n';
    let ending = if has_crlf {
        seq!['\r', '\n']
    } else {
        seq!['\n']
    };
    assert(crate::modification::preferred_ending(c) == ending);
    let r = normalized(ms[j].new_content, ending);
    assert(c.subrange(sp[last].ending_start, sp[last].ending_end) == Seq::<char>::empty());
    assert(rewritten_line(c, sp[last], last, ms, t, e) == r + Seq::<char>::empty());
    assert(r + Seq::<char>::empty() == r);
    lemma_rewritten_ends_with_last(c, sp, 0, ms, t, e);
    lemma_normalized_endings(ms[j].new_content, ending);
}

} // verus!
