//! What reading a bundle back guarantees: a bundle in the current format
//! gives back exactly the text files that were written into it, and every
//! file read from any bundle has a safe relative path of its own.
use vstd::prelude::*;

use crate::embedder::{
    adjacent_conflict, char_end, lemma_distinct_keys, components_key, safe_component, entry_keys, first_line, has_conflict, header_path,
    is_folder_of, length_field, line_at, next_line_start, parse_document_spec, parse_v2_spec,
    safe_relative_path_spec, trim_end_cr, v2_body, v2_contents, v2_entries, v2_step, validate_spec,
    with_entry, with_forward_slashes, SpecDocument, SpecEmbedError, SpecEntry, SpecV2Step,
};
use crate::extractor::{
    item_text, items_text, rendered, SpecItem, BINARY_MARKER, FORMAT_MARKER, LENGTH_PREFIX, METADATA_SUFFIX,
};
use crate::text::{
    decimal, find_from, is_digit, lemma_decimal_digits, lemma_find_from, lemma_parse_decimal,
    lemma_utf8_len_concat, lemma_utf8_len_prefix, parse_usize_spec, utf8_len, utf8_width,
};

verus! {

/// Where a line break follows `line` at `c`, the line read there is `line`
/// and the next one starts after the break.
proof fn lemma_line_at(s: Seq<char>, c: int, line: Seq<char>)
    requires
        0 <= c,
        c + line.len() < s.len(),
        s.subrange(c, c + line.len()) == line,
        s[c + line.len()] == '\n',
        forall|i: int| 0 <= i < line.len() ==> line[i] != '\n',
        line.len() == 0 || line.last() != '\r',
    ensures
        find_from(s, c, '\n') == c + line.len(),
        line_at(s, c) == line,
        next_line_start(s, c) == c + line.len() + 1,
{
    lemma_find_from(s, c, '\n');
    let f = find_from(s, c, '\n');
    if f < c + line.len() {
        assert(s[f] == s.subrange(c, c + line.len())[f - c]);
    }
    assert(s.subrange(c, f) == line);
}

/// Counting the UTF-8 bytes of `s[from..e]` from `from` ends at `e`.
proof fn lemma_char_end_exact(s: Seq<char>, from: int, e: int)
    requires
        0 <= from <= e <= s.len(),
    ensures
        char_end(s, from, utf8_len(s.subrange(from, e))) == Some(e),
    decreases e - from,
{
    if from == e {
        assert(s.subrange(from, e) == Seq::<char>::empty());
        assert(utf8_len(Seq::<char>::empty()) == 0);
    } else {
        lemma_char_end_exact(s, from + 1, e);
        let rest = s.subrange(from + 1, e);
        lemma_utf8_len_concat(seq![s[from]], rest);
        assert(seq![s[from]] + rest == s.subrange(from, e));
        assert(seq![s[from]].drop_last() == Seq::<char>::empty());
        assert(seq![s[from]].last() == s[from]);
        assert(utf8_len(Seq::<char>::empty()) == 0);
        assert(utf8_len(seq![s[from]]) == utf8_width(s[from]));
        assert(utf8_width(s[from]) >= 1);
    }
}

/// `s[c..]` starts with `t`: so do its pieces.
proof fn lemma_piece(s: Seq<char>, c: int, t: Seq<char>, a: int, b: int)
    requires
        0 <= c,
        c + t.len() <= s.len(),
        s.subrange(c, c + t.len()) == t,
        0 <= a <= b <= t.len(),
    ensures
        s.subrange(c + a, c + b) == t.subrange(a, b),
        a < t.len() ==> s[c + a] == t[a],
{
    assert forall|i: int| 0 <= i < b - a implies s.subrange(c + a, c + b)[i] == t.subrange(a, b)[i] by {
        assert(s[c + a + i] == s.subrange(c, c + t.len())[a + i]);
    }
    assert(s.subrange(c + a, c + b) =~= t.subrange(a, b));
    if a < t.len() {
        assert(s[c + a] == s.subrange(c, c + t.len())[a]);
    }
}

/// The header line of an entry names its path.
proof fn lemma_header(s: Seq<char>, c: int, path: Seq<char>, t: Seq<char>)
    requires
        0 <= c,
        c + t.len() <= s.len(),
        s.subrange(c, c + t.len()) == t,
        path.len() > 0,
        !path.contains('\n'),
        t.len() > path.len() + 12,
        t.take(path.len() + 12int) == "=="@ + path + " content=="@,
        t[path.len() + 12int] == '\n',
    ensures
        line_at(s, c) == "=="@ + path + " content=="@,
        next_line_start(s, c) == c + path.len() + 13,
        header_path(line_at(s, c)) == Some(path),
{
    reveal_strlit("==");
    reveal_strlit(" content==");
    let l = "=="@ + path + " content=="@;
    assert(l.len() == path.len() + 12);
    lemma_piece(s, c, t, 0, l.len() as int);
    lemma_piece(s, c, t, l.len() as int, l.len() as int);
    assert(t.subrange(0, l.len() as int) == t.take(l.len() as int));
    assert forall|i: int| 0 <= i < l.len() implies l[i] != '\n' by {
        if 2 <= i < path.len() + 2 {
            assert(l[i] == path[i - 2]);
        }
    }
    assert(l.last() == '=');
    lemma_line_at(s, c, l);
    assert(l.take(2) == "=="@);
    assert(l.subrange(l.len() - 10, l.len() as int) == " content=="@);
    assert(l.subrange(2, l.len() - 10) == path);
}

/// The length line of an entry holding `n` bytes.
pub open spec fn length_line(n: nat) -> Seq<char> {
    LENGTH_PREFIX@ + decimal(n) + METADATA_SUFFIX@
}

/// Where the entry text of a file lies: header line, length line, contents,
/// each followed by a line break.
proof fn lemma_text_layout(path: Seq<char>, text: Seq<char>)
    ensures
        ({
            let t = item_text(SpecItem::Text { path, text });
            let l1 = "=="@ + path + " content=="@;
            let l2 = length_line(utf8_len(text));
            let o1: int = l1.len() + 1int;
            let o2: int = o1 + l2.len() + 1;
            &&& l1.len() == path.len() + 12
            &&& t.len() == o2 + text.len() + 1
            &&& t.take(path.len() + 12int) == l1
            &&& t[path.len() + 12int] == '\n'
            &&& t.subrange(o1, o1 + l2.len()) == l2
            &&& t[o1 + l2.len()] == '\n'
            &&& t.subrange(o2, o2 + text.len()) == text
            &&& t[o2 + text.len()] == '\n'
        }),
{
    reveal_strlit("==");
    reveal_strlit(" content==");
    let t = item_text(SpecItem::Text { path, text });
    let l1 = "=="@ + path + " content=="@;
    let l2 = length_line(utf8_len(text));
    assert(t == l1 + seq!['\n'] + l2 + seq!['\n'] + text + seq!['\n']);
    let o1: int = l1.len() + 1int;
    let o2: int = o1 + l2.len() + 1;
    assert(t.take(path.len() + 12int) == l1);
    assert(t.subrange(o1, o1 + l2.len()) == l2);
    assert(t.subrange(o2, o2 + text.len()) == text);
}

/// The length line is read as a length of `n` bytes.
proof fn lemma_length_line(s: Seq<char>, c: int, n: nat)
    requires
        n <= usize::MAX,
        0 <= c,
        c + length_line(n).len() < s.len(),
        s.subrange(c, c + length_line(n).len()) == length_line(n),
        s[c + length_line(n).len()] == '\n',
    ensures
        line_at(s, c) == length_line(n),
        next_line_start(s, c) == c + length_line(n).len() + 1,
        line_at(s, c) != BINARY_MARKER@,
        length_field(line_at(s, c)) == Some(decimal(n)),
        parse_usize_spec(decimal(n)) == Some(n as usize),
{
    reveal_strlit("==");
    reveal_strlit("==utf8-bytes:");
    reveal_strlit("[Skipped: binary file]");
    let l2 = length_line(n);
    lemma_decimal_digits(n);
    lemma_parse_decimal(n as usize);
    assert forall|i: int| 0 <= i < l2.len() implies l2[i] != '\n' by {
        if 13 <= i < 13 + decimal(n).len() {
            assert(l2[i] == decimal(n)[i - 13]);
            assert(is_digit(decimal(n)[i - 13]));
        }
    }
    assert(l2.last() == '=');
    lemma_line_at(s, c, l2);
    assert(l2[0] == '=');
    assert(BINARY_MARKER@[0] == '[');
    assert(l2.take(13) == "==utf8-bytes:"@);
    assert(l2.subrange(l2.len() - 2, l2.len() as int) == "=="@);
    assert(l2.subrange(13, l2.len() - 2) == decimal(n));
}

/// A text entry is read as the file it was written from.
#[verifier::rlimit(60)]
proof fn lemma_text_step(s: Seq<char>, c: int, path: Seq<char>, text: Seq<char>)
    requires
        0 <= c,
        c + item_text(SpecItem::Text { path, text }).len() <= s.len(),
        s.subrange(c, c + item_text(SpecItem::Text { path, text }).len()) == item_text(
            SpecItem::Text { path, text },
        ),
        !path.contains('\n'),
        safe_relative_path_spec(path) is Ok,
        utf8_len(text) <= usize::MAX,
    ensures
        v2_step(s, c) == (SpecV2Step::Next {
            cursor: c + item_text(SpecItem::Text { path, text }).len(),
            entry: Some(SpecEntry { path: with_forward_slashes(path), contents: text }),
            binary: false,
        }),
{
    let t = item_text(SpecItem::Text { path, text });
    let n = utf8_len(text);
    let l1 = "=="@ + path + " content=="@;
    let l2 = length_line(n);
    lemma_text_layout(path, text);
    let c1 = c + l1.len() + 1;
    let c2 = c1 + l2.len() + 1;
    let e = c2 + text.len();
    lemma_header(s, c, path, t);
    lemma_piece(s, c, t, c1 - c, c1 - c + l2.len());
    lemma_piece(s, c, t, c1 - c + l2.len(), c1 - c + l2.len());
    lemma_length_line(s, c1, n);
    lemma_piece(s, c, t, c2 - c, e - c);
    lemma_piece(s, c, t, e - c, e - c);
    assert(v2_contents(s, c2, path, n) == (SpecV2Step::Next {
        cursor: e + 1,
        entry: Some(SpecEntry { path: with_forward_slashes(path), contents: text }),
        binary: false,
    })) by {
        lemma_char_end_exact(s, c2, e);
        lemma_utf8_len_prefix(s, c2, e);
        lemma_utf8_len_prefix(s, e, s.len() as int);
        assert(s.take(s.len() as int) == s);
    }
    assert(v2_body(s, c1, path) == v2_contents(s, c2, path, n));
}

/// A binary entry is read as a skipped file followed by an empty line.
proof fn lemma_binary_step(s: Seq<char>, c: int, path: Seq<char>)
    requires
        0 <= c,
        c + item_text(SpecItem::Binary { path }).len() <= s.len(),
        s.subrange(c, c + item_text(SpecItem::Binary { path }).len()) == item_text(
            SpecItem::Binary { path },
        ),
        path.len() > 0,
        !path.contains('\n'),
    ensures
        v2_step(s, c) == (SpecV2Step::Next {
            cursor: c + item_text(SpecItem::Binary { path }).len() - 1,
            entry: None,
            binary: true,
        }),
        v2_step(s, c + item_text(SpecItem::Binary { path }).len() - 1) == (SpecV2Step::Next {
            cursor: c + item_text(SpecItem::Binary { path }).len(),
            entry: None,
            binary: false,
        }),
{
    reveal_strlit("==");
    reveal_strlit(" content==");
    reveal_strlit("[Skipped: binary file]");
    let t = item_text(SpecItem::Binary { path });
    let l1 = "=="@ + path + " content=="@;
    let m = BINARY_MARKER@;
    assert(t == l1 + seq!['\n'] + m + seq!['\n', '\n']);
    let c1 = c + l1.len() + 1;
    let c2 = c1 + m.len() + 1;
    assert(t.take(path.len() + 12int) == l1);
    lemma_header(s, c, path, t);
    lemma_piece(s, c, t, c1 - c, c1 - c + m.len());
    lemma_piece(s, c, t, c2 - c - 1, c2 - c - 1);
    assert(t.subrange(c1 - c, c1 - c + m.len()) == m);
    assert forall|i: int| 0 <= i < m.len() implies m[i] != '\n' by {}
    lemma_line_at(s, c1, m);
    assert(v2_body(s, c1, path) == (SpecV2Step::Next { cursor: c2, entry: None, binary: true }));
    lemma_piece(s, c, t, c2 - c, c2 - c);
    assert(s.subrange(c2, c2) == Seq::<char>::empty());
    lemma_line_at(s, c2, Seq::<char>::empty());
}

/// The file that an item gives back, if any.
pub open spec fn item_entry(item: SpecItem) -> Option<SpecEntry> {
    match item {
        SpecItem::Text { path, text } => Some(
            SpecEntry { path: with_forward_slashes(path), contents: text },
        ),
        SpecItem::Binary { .. } => None,
    }
}

/// The files that the items give back, in order.
pub open spec fn bundled_files(items: Seq<SpecItem>) -> Seq<SpecEntry>
    decreases items.len(),
{
    if items.len() == 0 {
        Seq::empty()
    } else {
        with_entry(bundled_files(items.drop_last()), item_entry(items.last()))
    }
}

/// The number of binary items.
pub open spec fn skipped_count(items: Seq<SpecItem>) -> nat
    decreases items.len(),
{
    if items.len() == 0 {
        0
    } else {
        skipped_count(items.drop_last()) + if items.last() is Binary {
            1nat
        } else {
            0nat
        }
    }
}

/// An item that can be read back: its path is a line of its own and, for a
/// text file, a safe relative path; the length of its text fits in `usize`.
pub open spec fn bundleable(item: SpecItem) -> bool {
    match item {
        SpecItem::Text { path, text } => {
            &&& !path.contains('\n')
            &&& safe_relative_path_spec(path) is Ok
            &&& utf8_len(text) <= usize::MAX
        },
        SpecItem::Binary { path } => path.len() > 0 && !path.contains('\n'),
    }
}

/// Reading one entry adds the file it was written from.
proof fn lemma_item_entries(s: Seq<char>, c: int, item: SpecItem, files: Seq<SpecEntry>, binary: nat)
    requires
        0 <= c,
        c + item_text(item).len() <= s.len(),
        s.subrange(c, c + item_text(item).len()) == item_text(item),
        bundleable(item),
    ensures
        v2_entries(s, c, files, binary) == v2_entries(
            s,
            c + item_text(item).len(),
            with_entry(files, item_entry(item)),
            binary + if item is Binary {
                1nat
            } else {
                0nat
            },
        ),
{
    match item {
        SpecItem::Text { path, text } => {
            lemma_text_step(s, c, path, text);
        },
        SpecItem::Binary { path } => {
            lemma_binary_step(s, c, path);
            let c2 = c + item_text(item).len() - 1;
            assert(v2_entries(s, c2, files, binary + 1) == v2_entries(
                s,
                c + item_text(item).len(),
                files,
                binary + 1,
            ));
        },
    }
}

/// The entries of the first `j` items start the entries of all of them.
proof fn lemma_items_text_prefix(items: Seq<SpecItem>, j: int)
    requires
        0 <= j <= items.len(),
    ensures
        items_text(items.take(j)).len() <= items_text(items).len(),
        items_text(items).take(items_text(items.take(j)).len() as int) == items_text(items.take(j)),
    decreases items.len(),
{
    if j == items.len() {
        assert(items.take(j) == items);
    } else {
        let d = items.drop_last();
        lemma_items_text_prefix(d, j);
        assert(d.take(j) == items.take(j));
        let a = items_text(d);
        let b = items_text(items.take(j));
        assert(items_text(items) == a + item_text(items.last()));
        assert((a + item_text(items.last())).take(b.len() as int) == a.take(b.len() as int));
    }
}

/// The entries of the first `k + 1` items: those of the first `k`, then
/// that of item `k`.
proof fn lemma_take_next(items: Seq<SpecItem>, k: int)
    requires
        0 <= k < items.len(),
    ensures
        items_text(items.take(k + 1)) == items_text(items.take(k)) + item_text(items[k]),
        bundled_files(items.take(k + 1)) == with_entry(bundled_files(items.take(k)), item_entry(items[k])),
        skipped_count(items.take(k + 1)) == skipped_count(items.take(k)) + if items[k] is Binary {
            1nat
        } else {
            0nat
        },
{
    assert(items.take(k + 1).drop_last() == items.take(k));
    assert(items.take(k + 1).last() == items[k]);
}

/// Reading the entries of `rendered(items)` from the entry of item `k` on
/// gives the files of all items.
proof fn lemma_entries_from(items: Seq<SpecItem>, k: int)
    requires
        0 <= k <= items.len(),
        forall|i: int| 0 <= i < items.len() ==> bundleable(#[trigger] items[i]),
    ensures
        v2_entries(
            rendered(items),
            FORMAT_MARKER@.len() + 1int + items_text(items.take(k)).len(),
            bundled_files(items.take(k)),
            skipped_count(items.take(k)),
        ) == Ok::<SpecDocument, crate::embedder::SpecEmbedError>(
            SpecDocument {
                files: bundled_files(items),
                binary_files_skipped: skipped_count(items),
                legacy_format: false,
            },
        ),
    decreases items.len() - k,
{
    let s = rendered(items);
    let p = FORMAT_MARKER@ + seq!['\n'];
    let whole = items_text(items);
    assert(s == p + whole);
    if k == items.len() {
        assert(items.take(k) == items);
    } else {
        lemma_entries_from(items, k + 1);
        lemma_take_next(items, k);
        lemma_items_text_prefix(items, k + 1);
        let before = items_text(items.take(k));
        let t = item_text(items[k]);
        let ck: int = p.len() + before.len() as int;
        let bl: int = before.len() as int;
        let tl: int = t.len() as int;
        assert(whole.take(bl + tl) == before + t);
        assert(s.subrange(ck, ck + tl) == t) by {
            assert forall|i: int| 0 <= i < tl implies s.subrange(ck, ck + tl)[i] == t[i] by {
                assert(s[ck + i] == whole[bl + i]);
                assert(whole[bl + i] == whole.take(bl + tl)[bl + i]);
                assert((before + t)[bl + i] == t[i]);
            }
            assert(s.subrange(ck, ck + tl) =~= t);
        }
        lemma_item_entries(s, ck, items[k], bundled_files(items.take(k)), skipped_count(items.take(k)));
    }
}

/// The case-folded key of a file's path, as validation compares it.
pub open spec fn file_key(entry: SpecEntry) -> Seq<char> {
    match safe_relative_path_spec(entry.path) {
        Ok((_, key)) => key,
        Err(_) => Seq::empty(),
    }
}

/// No two files share a key, and no file's key names a folder of another's.
pub open spec fn keys_apart(files: Seq<SpecEntry>) -> bool {
    forall|x: int, y: int|
        #![trigger files[x], files[y]]
        0 <= x < files.len() && 0 <= y < files.len() && x != y ==> {
            &&& file_key(files[x]) != file_key(files[y])
            &&& !is_folder_of(file_key(files[x]), file_key(files[y]))
        }
}

pub open spec fn keys_of_files(files: Seq<SpecEntry>) -> Seq<Seq<char>> {
    files.map_values(|e: SpecEntry| file_key(e))
}

proof fn lemma_forward_slashes_idempotent(p: Seq<char>)
    ensures
        with_forward_slashes(with_forward_slashes(p)) == with_forward_slashes(p),
{
    assert(with_forward_slashes(with_forward_slashes(p)) =~= with_forward_slashes(p));
}

/// Every file given back has a path that validation accepts.
proof fn lemma_bundled_paths_safe(items: Seq<SpecItem>)
    requires
        forall|i: int| 0 <= i < items.len() ==> bundleable(#[trigger] items[i]),
    ensures
        forall|j: int|
            0 <= j < bundled_files(items).len() ==> safe_relative_path_spec(
                #[trigger] bundled_files(items)[j].path,
            ) is Ok,
    decreases items.len(),
{
    if items.len() > 0 {
        let d = items.drop_last();
        assert forall|i: int| 0 <= i < d.len() implies bundleable(#[trigger] d[i]) by {
            assert(d[i] == items[i]);
        }
        lemma_bundled_paths_safe(d);
        let last = items.last();
        assert(bundleable(items[items.len() - 1]));
        if let SpecItem::Text { path, text } = last {
            lemma_forward_slashes_idempotent(path);
            let w = with_forward_slashes(path);
            assert(w.len() == path.len());
            assert(safe_relative_path_spec(w) == Ok::<(Seq<char>, Seq<char>), crate::embedder::SpecPathError>(
                (w, components_key(w, 0)->Some_0),
            ));
        }
    }
}

/// Validation collects the keys of the files in order.
proof fn lemma_entry_keys(files: Seq<SpecEntry>, j: int)
    requires
        0 <= j <= files.len(),
        forall|x: int| 0 <= x < files.len() ==> safe_relative_path_spec(#[trigger] files[x].path) is Ok,
        keys_apart(files),
    ensures
        entry_keys(files, j, keys_of_files(files).take(j)) == Ok::<Seq<Seq<char>>, SpecEmbedError>(
            keys_of_files(files),
        ),
    decreases files.len() - j,
{
    let ks = keys_of_files(files);
    if j == files.len() {
        assert(ks.take(j) == ks);
    } else {
        let k = ks[j];
        assert(safe_relative_path_spec(files[j].path) is Ok);
        assert(k == file_key(files[j]));
        assert(!ks.take(j).contains(k)) by {
            assert forall|x: int| 0 <= x < j implies ks.take(j)[x] != k by {
                assert(ks.take(j)[x] == file_key(files[x]));
                assert(files[x] == files[x] && files[j] == files[j]);
            }
        }
        assert(ks.take(j).push(k) == ks.take(j + 1));
        lemma_entry_keys(files, j + 1);
    }
}

/// Files with safe paths and keys apart pass validation unchanged.
proof fn lemma_validated(doc: SpecDocument)
    requires
        forall|x: int|
            0 <= x < doc.files.len() ==> safe_relative_path_spec(#[trigger] doc.files[x].path) is Ok,
        keys_apart(doc.files),
    ensures
        validate_spec(doc) == Ok::<SpecDocument, SpecEmbedError>(doc),
{
    let ks = keys_of_files(doc.files);
    lemma_entry_keys(doc.files, 0);
    assert(ks.take(0) == Seq::<Seq<char>>::empty());
    assert(!has_conflict(ks)) by {
        assert forall|a: int, c: int| !adjacent_conflict(ks, a, c) by {
            if adjacent_conflict(ks, a, c) {
                assert(ks[a] == file_key(doc.files[a]));
                assert(ks[c] == file_key(doc.files[c]));
                if a == c {
                    assert(!is_folder_of(ks[a], ks[c]));
                } else {
                    assert(doc.files[a] == doc.files[a] && doc.files[c] == doc.files[c]);
                }
            }
        }
    }
}

/// Reading back a bundle written in the current format gives back exactly
/// the text files written into it, in order, with their paths and
/// contents, and counts the binary files that it lists. This holds for
/// every list of files whose paths are each a line of their own and, for
/// text files, safe relative paths whose case-folded keys neither repeat
/// nor name a folder of one another, and whose texts have a length that
/// fits in `usize`.
pub proof fn lemma_read_back_written_bundle(items: Seq<SpecItem>)
    requires
        forall|i: int| 0 <= i < items.len() ==> bundleable(#[trigger] items[i]),
        keys_apart(bundled_files(items)),
    ensures
        parse_document_spec(rendered(items)) == Ok::<SpecDocument, SpecEmbedError>(
            SpecDocument {
                files: bundled_files(items),
                binary_files_skipped: skipped_count(items),
                legacy_format: false,
            },
        ),
{
    reveal_strlit("==code-bundler:v2==");
    let s = rendered(items);
    let m = FORMAT_MARKER@;
    assert(s.subrange(0, m.len() as int) == m);
    assert(s[m.len() as int] == '\n');
    assert forall|i: int| 0 <= i < m.len() implies m[i] != '\n' by {}
    lemma_line_at(s, 0, m);
    assert(trim_end_cr(m) == m);
    assert(first_line(s) == m);
    lemma_entries_from(items, 0);
    assert(items.take(0) == Seq::<SpecItem>::empty());
    assert(parse_v2_spec(s) == Ok::<SpecDocument, SpecEmbedError>(
        SpecDocument {
            files: bundled_files(items),
            binary_files_skipped: skipped_count(items),
            legacy_format: false,
        },
    ));
    lemma_bundled_paths_safe(items);
    lemma_validated(
        SpecDocument {
            files: bundled_files(items),
            binary_files_skipped: skipped_count(items),
            legacy_format: false,
        },
    );
}

/// Collecting keys from file `j` on appends the key of each file, whose
/// path is then safe.
proof fn lemma_entry_keys_ok(files: Seq<SpecEntry>, j: int, keys: Seq<Seq<char>>)
    requires
        0 <= j <= files.len(),
    ensures
        entry_keys(files, j, keys) matches Ok(ks) ==> {
            &&& ks.len() == keys.len() + files.len() - j
            &&& forall|i: int| 0 <= i < keys.len() ==> ks[i] == keys[i]
            &&& forall|x: int|
                j <= x < files.len() ==> safe_relative_path_spec(#[trigger] files[x].path) is Ok
                    && ks[keys.len() + x - j] == file_key(files[x])
        },
    decreases files.len() - j,
{
    if j < files.len() {
        if let Ok((_, k)) = safe_relative_path_spec(files[j].path) {
            if !keys.contains(k) {
                lemma_entry_keys_ok(files, j + 1, keys.push(k));
                if let Ok(ks) = entry_keys(files, j, keys) {
                    assert(ks[keys.len() as int] == keys.push(k)[keys.len() as int]);
                    assert forall|x: int|
                        j <= x < files.len() implies safe_relative_path_spec(#[trigger] files[x].path) is Ok
                            && ks[keys.len() + x - j] == file_key(files[x]) by {
                        if x > j {
                            assert(keys.push(k).len() + x - (j + 1) == keys.len() + x - j);
                        }
                    }
                    assert forall|i: int| 0 <= i < keys.len() implies ks[i] == keys[i] by {
                        assert(ks[i] == keys.push(k)[i]);
                    }
                }
            }
        }
    }
}

/// Every file of a bundle that is read without error has a safe relative
/// path (no empty, `.` or `..` component, no `:` and no NUL, so it stays
/// inside the output folder), and no two files share a case-folded key.
pub proof fn lemma_read_paths_are_safe(s: Seq<char>)
    ensures
        parse_document_spec(s) matches Ok(d) ==> {
            &&& forall|j: int|
                0 <= j < d.files.len() ==> safe_relative_path_spec(#[trigger] d.files[j].path) is Ok
            &&& forall|x: int, y: int|
                #![trigger d.files[x], d.files[y]]
                0 <= x < y < d.files.len() ==> file_key(d.files[x]) != file_key(d.files[y])
        },
{
    if let Ok(d) = parse_document_spec(s) {
        lemma_entry_keys_ok(d.files, 0, Seq::empty());
        lemma_distinct_keys(d.files, 0, Seq::empty());
        let ks = entry_keys(d.files, 0, Seq::empty())->Ok_0;
        assert forall|x: int, y: int|
            #![trigger d.files[x], d.files[y]]
            0 <= x < y < d.files.len() implies file_key(d.files[x]) != file_key(d.files[y]) by {
            assert(ks[0 + x - 0] == file_key(d.files[x]));
            assert(ks[0 + y - 0] == file_key(d.files[y]));
        }
    }
}


/// A path that stays inside the folder it is created in, written over its
/// characters: it is not empty, does not start or end with `/`, has no
/// empty component (`//`), no component `.` or `..`, and no `:`, NUL or
/// `\\`.
pub open spec fn stays_inside(p: Seq<char>) -> bool {
    &&& p.len() > 0
    &&& p[0] != '/'
    &&& p.last() != '/'
    &&& forall|i: int| 0 <= i < p.len() ==> #[trigger] p[i] != ':' && p[i] != '\0' && p[i] != '\\'
    &&& forall|i: int| 0 <= i < p.len() - 1 && #[trigger] p[i] == '/' ==> p[i + 1] != '/'
    &&& forall|i: int|
        0 <= i < p.len() && #[trigger] p[i] == '.' && (i == 0 || p[i - 1] == '/') ==> i + 1 < p.len()
            && p[i + 1] != '/'
    &&& forall|i: int|
        0 <= i < p.len() - 1 && #[trigger] p[i] == '.' && p[i + 1] == '.' && (i == 0 || p[i - 1] == '/')
            ==> i + 2 < p.len() && p[i + 2] != '/'
}

/// The components of `s` from `start` on, when all are accepted, satisfy
/// `stays_inside` from `start` on.
proof fn lemma_components_inside(s: Seq<char>, start: int)
    requires
        0 <= start <= s.len(),
        components_key(s, start) is Some,
    ensures
        start < s.len(),
        s[start] != '/',
        s.last() != '/',
        forall|i: int| start <= i < s.len() ==> #[trigger] s[i] != ':' && s[i] != '\0',
        forall|i: int| start <= i < s.len() - 1 && #[trigger] s[i] == '/' ==> s[i + 1] != '/',
        forall|i: int|
            start <= i < s.len() && #[trigger] s[i] == '.' && (i == start || s[i - 1] == '/') ==> i + 1 < s.len()
                && s[i + 1] != '/',
        forall|i: int|
            start <= i < s.len() - 1 && #[trigger] s[i] == '.' && s[i + 1] == '.' && (i == start || s[i - 1]
                == '/') ==> i + 2 < s.len() && s[i + 2] != '/',
    decreases s.len() - start,
{
    lemma_find_from(s, start, '/');
    let j = find_from(s, start, '/');
    let part = s.subrange(start, j);
    assert(safe_component(part));
    assert forall|i: int| start <= i < j implies #[trigger] s[i] != ':' && s[i] != '\0' by {
        assert(part[i - start] == s[i]);
        assert(!part.contains(':') && !part.contains('\0'));
        if s[i] == ':' || s[i] == '\0' {
            assert(part.contains(s[i]));
        }
    }
    assert(part[0] == s[start]);
    if s[start] == '.' {
        if part.len() == 1 {
            assert(part == "."@) by {
                reveal_strlit(".");
            }
        }
        assert(part.len() >= 2);
        assert(s[start + 1] == part[1]);
        if part.len() == 2 && s[start + 1] == '.' {
            assert(part == ".."@) by {
                reveal_strlit("..");
            }
        }
        if s[start + 1] == '.' {
            assert(part.len() >= 3);
            assert(s[start + 2] == part[2]);
        }
    }
    if j < s.len() {
        lemma_components_inside(s, j + 1);
        assert forall|i: int| start <= i < s.len() && #[trigger] s[i] == '.' && (i == start || s[i - 1] == '/') implies i + 1 < s.len()
            && s[i + 1] != '/' by {
            if start < i <= j {
                assert(s[i - 1] != '/' || i - 1 == j);
            }
        }
        assert forall|i: int| start <= i < s.len() - 1 && #[trigger] s[i] == '.' && s[i + 1] == '.' && (i == start || s[i - 1]
                == '/') implies i + 2 < s.len() && s[i + 2] != '/' by {
            if start < i <= j {
                assert(s[i - 1] != '/' || i - 1 == j);
            }
        }
    } else {
        assert(s.last() == part.last());
        assert forall|i: int| start <= i < s.len() && #[trigger] s[i] == '.' && (i == start || s[i - 1] == '/') implies i + 1 < s.len()
            && s[i + 1] != '/' by {
            if start < i {
                assert(s[i - 1] != '/');
            }
        }
        assert forall|i: int| start <= i < s.len() - 1 && #[trigger] s[i] == '.' && s[i + 1] == '.' && (i == start || s[i - 1]
                == '/') implies i + 2 < s.len() && s[i + 2] != '/' by {
            if start < i {
                assert(s[i - 1] != '/');
            }
        }
    }
}

/// Every path that `safe_relative_path` accepts comes back, with `/`
/// separators, as a path that stays inside the output folder.
pub proof fn lemma_accepted_paths_stay_inside(raw: Seq<char>)
    ensures
        safe_relative_path_spec(raw) matches Ok((p, _)) ==> stays_inside(p),
{
    if let Ok((p, _)) = safe_relative_path_spec(raw) {
        assert(p == with_forward_slashes(raw));
        lemma_components_inside(p, 0);
        assert forall|i: int| 0 <= i < p.len() implies #[trigger] p[i] != '\\' by {
            assert(p[i] == (if raw[i] == '\\' { '/' } else { raw[i] }));
        }
    }
}

/// Every file of a bundle that is read without error has a path that,
/// written with `/` separators, stays inside the output folder.
pub proof fn lemma_read_paths_stay_inside(s: Seq<char>)
    ensures
        parse_document_spec(s) matches Ok(d) ==> forall|j: int|
            0 <= j < d.files.len() ==> stays_inside(with_forward_slashes(#[trigger] d.files[j].path)),
{
    lemma_read_paths_are_safe(s);
    if let Ok(d) = parse_document_spec(s) {
        assert forall|j: int| 0 <= j < d.files.len() implies stays_inside(with_forward_slashes(#[trigger] d.files[j].path)) by {
            lemma_accepted_paths_stay_inside(d.files[j].path);
        }
    }
}

} // verus!