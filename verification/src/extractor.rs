//! Writing a bundle: the format markers, the text of each entry, binary
//! detection and text decoding of the files that go into it.
use vstd::prelude::*;

use crate::compression::{safely_compress, safely_compressed};
use crate::order::{keys_view, sorted_order, stable_sorted};
use crate::text::{byte_length, chars_of, decimal, lemma_decimal_digits, lowercase, push_decimal, push_str, string_of, unicode_lowercase, utf8_len};

verus! {

/// First line of a bundle in the current format.
pub const FORMAT_MARKER: &'static str = "==code-bundler:v2==";

/// First line of a bundle written under the previous package name.
pub const PREVIOUS_FORMAT_MARKER: &'static str = "==code-extractor:v2==";

/// Start of the line that gives an entry's length in UTF-8 bytes.
pub const LENGTH_PREFIX: &'static str = "==utf8-bytes:";

/// End of the length line.
pub const METADATA_SUFFIX: &'static str = "==";

/// Stands in place of the contents of a file that was not bundled.
pub const BINARY_MARKER: &'static str = "[Skipped: binary file]";

/// The file has a NUL byte among its first 8192 bytes and does not start
/// with a UTF-16 byte order mark.
pub open spec fn probably_binary(bytes: Seq<u8>) -> bool {
    &&& exists|i: int| 0 <= i < bytes.len() && i < 8192 && #[trigger] bytes[i] == 0
    &&& !(bytes.len() >= 2 && bytes[0] == 0xff && bytes[1] == 0xfe)
    &&& !(bytes.len() >= 2 && bytes[0] == 0xfe && bytes[1] == 0xff)
}

/// Whether a file looks binary, so that it is listed but not bundled.
pub fn is_probably_binary(bytes: &[u8]) -> (r: bool)
    ensures
        r == probably_binary(bytes@),
{
    let limit = if bytes.len() < 8192 {
        bytes.len()
    } else {
        8192
    };
    let mut i: usize = 0;
    let mut has_nul = false;
    while i < limit
        invariant
            i <= limit <= bytes.len(),
            limit <= 8192,
            limit == bytes.len() || limit == 8192,
            has_nul == exists|j: int| 0 <= j < i && #[trigger] bytes@[j] == 0,
        decreases limit - i,
    {
        if bytes[i] == 0 {
            has_nul = true;
        }
        i += 1;
    }
    let le_mark = bytes.len() >= 2 && bytes[0] == 0xff && bytes[1] == 0xfe;
    let be_mark = bytes.len() >= 2 && bytes[0] == 0xfe && bytes[1] == 0xff;
    has_nul && !le_mark && !be_mark
}

/// The character with the scalar value `v`.
#[verifier::external_body]
fn char_from_scalar(v: u32) -> (c: char)
    requires
        v < 0xD800 || (0xE000 <= v && v <= 0x10FFFF),
    ensures
        c as u32 == v,
{
    char::from_u32(v).unwrap()
}

/// The UTF-16 code units `units[i..]` decoded as `char::decode_utf16` does,
/// with each unpaired surrogate read as U+FFFD.
pub open spec fn utf16_decoded(units: Seq<u16>, i: int) -> Seq<char>
    decreases units.len() - i,
{
    if i < 0 || i >= units.len() {
        Seq::empty()
    } else {
        let u = units[i];
        if u < 0xD800 || u > 0xDFFF {
            seq![(u as u32) as char] + utf16_decoded(units, i + 1)
        } else if u <= 0xDBFF && i + 1 < units.len() && 0xDC00 <= units[i + 1] <= 0xDFFF {
            seq![
                ((0x10000 + (u - 0xD800) * 0x400 + (units[i + 1] - 0xDC00)) as u32) as char,
            ] + utf16_decoded(units, i + 2)
        } else {
            seq!['\u{FFFD}'] + utf16_decoded(units, i + 1)
        }
    }
}

/// The code units of `bytes[2..]`, two bytes each, little- or big-endian;
/// an odd last byte is dropped.
pub open spec fn utf16_units(bytes: Seq<u8>, little_endian: bool) -> Seq<u16> {
    Seq::new(
        ((bytes.len() - 2) / 2) as nat,
        |k: int|
            if little_endian {
                (bytes[2 + 2 * k] as int + 256 * bytes[3 + 2 * k] as int) as u16
            } else {
                (256 * bytes[2 + 2 * k] as int + bytes[3 + 2 * k] as int) as u16
            },
    )
}

/// Decodes UTF-16 text after its byte order mark.
fn decode_utf16_after_mark(bytes: &[u8], little_endian: bool) -> (r: String)
    requires
        bytes.len() >= 2,
    ensures
        r@ == utf16_decoded(utf16_units(bytes@, little_endian), 0),
{
    let ghost units = utf16_units(bytes@, little_endian);
    let count = (bytes.len() - 2) / 2;
    let mut out: Vec<char> = Vec::new();
    let mut k: usize = 0;
    while k < count
        invariant
            count == units.len(),
            units == utf16_units(bytes@, little_endian),
            bytes.len() >= 2,
            count == (bytes.len() - 2) / 2,
            k <= count,
            out@ + utf16_decoded(units, k as int) == utf16_decoded(units, 0),
        decreases count - k,
    {
        let ghost before = out@;
        let u = unit_at(bytes, k, little_endian);
        assert(u == units[k as int]);
        if u < 0xD800 || u > 0xDFFF {
            out.push(char_from_scalar(u as u32));
            assert(before + utf16_decoded(units, k as int) == out@ + utf16_decoded(units, k + 1));
            k += 1;
        } else if u <= 0xDBFF && k + 1 < count {
            let low = unit_at(bytes, k + 1, little_endian);
            assert(low == units[k + 1]);
            if 0xDC00 <= low && low <= 0xDFFF {
                let v: u32 = 0x10000 + (u as u32 - 0xD800) * 0x400 + (low as u32 - 0xDC00);
                out.push(char_from_scalar(v));
                assert(before + utf16_decoded(units, k as int) == out@ + utf16_decoded(units, k + 2));
                k += 2;
            } else {
                out.push('\u{FFFD}');
                assert(before + utf16_decoded(units, k as int) == out@ + utf16_decoded(units, k + 1));
                k += 1;
            }
        } else {
            out.push('\u{FFFD}');
            assert(before + utf16_decoded(units, k as int) == out@ + utf16_decoded(units, k + 1));
            k += 1;
        }
    }
    assert(utf16_decoded(units, k as int) == Seq::<char>::empty());
    assert(out@ + Seq::<char>::empty() == out@);
    string_of(&out)
}

/// Code unit `k` after the byte order mark.
fn unit_at(bytes: &[u8], k: usize, little_endian: bool) -> (u: u16)
    requires
        bytes.len() >= 2,
        k < (bytes.len() - 2) / 2,
    ensures
        u == utf16_units(bytes@, little_endian)[k as int],
{
    let a = bytes[2 + 2 * k] as u16;
    let b = bytes[3 + 2 * k] as u16;
    if little_endian {
        a + 256 * b
    } else {
        256 * a + b
    }
}

/// Name for what `String::from_utf8_lossy` returns for `bytes`.
pub uninterp spec fn utf8_lossy(bytes: Seq<u8>) -> Seq<char>;

/// Calls `String::from_utf8_lossy`, which replaces each invalid UTF-8
/// sequence by U+FFFD and reads valid UTF-8 unchanged; only the second part
/// is stated here.
#[verifier::external_body]
fn decode_utf8_lossy(bytes: &[u8]) -> (r: String)
    ensures
        r@ == utf8_lossy(bytes@),
        vstd::utf8::valid_utf8(bytes@) ==> r@ == vstd::utf8::decode_utf8(bytes@),
{
    String::from_utf8_lossy(bytes).into_owned()
}

/// What `decode_text` returns: UTF-16 after a byte order mark, otherwise
/// UTF-8 without a leading byte order mark.
pub open spec fn decoded_text(bytes: Seq<u8>) -> Seq<char> {
    if bytes.len() >= 2 && bytes[0] == 0xff && bytes[1] == 0xfe {
        utf16_decoded(utf16_units(bytes, true), 0)
    } else if bytes.len() >= 2 && bytes[0] == 0xfe && bytes[1] == 0xff {
        utf16_decoded(utf16_units(bytes, false), 0)
    } else if bytes.len() >= 3 && bytes[0] == 0xef && bytes[1] == 0xbb && bytes[2] == 0xbf {
        utf8_lossy(bytes.skip(3))
    } else {
        utf8_lossy(bytes)
    }
}

/// Decodes the contents of a text file.
pub fn decode_text(bytes: &[u8]) -> (r: String)
    ensures
        r@ == decoded_text(bytes@),
        bytes@.len() >= 3 && bytes@[0] == 0xef && bytes@[1] == 0xbb && bytes@[2] == 0xbf
            && vstd::utf8::valid_utf8(bytes@.skip(3)) ==> r@ == vstd::utf8::decode_utf8(bytes@.skip(3)),
        !(bytes@.len() >= 2 && bytes@[0] == 0xff && bytes@[1] == 0xfe) && !(bytes@.len() >= 2 && bytes@[0]
            == 0xfe && bytes@[1] == 0xff) && !(bytes@.len() >= 3 && bytes@[0] == 0xef && bytes@[1] == 0xbb
            && bytes@[2] == 0xbf) && vstd::utf8::valid_utf8(bytes@) ==> r@ == vstd::utf8::decode_utf8(
            bytes@,
        ),
{
    if bytes.len() >= 2 && bytes[0] == 0xff && bytes[1] == 0xfe {
        return decode_utf16_after_mark(bytes, true);
    }
    if bytes.len() >= 2 && bytes[0] == 0xfe && bytes[1] == 0xff {
        return decode_utf16_after_mark(bytes, false);
    }
    if bytes.len() >= 3 && bytes[0] == 0xef && bytes[1] == 0xbb && bytes[2] == 0xbf {
        let rest = vstd::slice::slice_subrange(bytes, 3, bytes.len());
        assert(rest@ == bytes@.skip(3));
        return decode_utf8_lossy(rest);
    }
    decode_utf8_lossy(bytes)
}


/// What goes into a bundle for one file.
pub enum BundleItem {
    /// A text file: its path relative to the bundled folder, with `/`
    /// separators, and its text.
    Text { path: String, text: String },
    /// A binary file, listed without contents.
    Binary { path: String },
}

/// `BundleItem` as characters.
pub enum SpecItem {
    Text { path: Seq<char>, text: Seq<char> },
    Binary { path: Seq<char> },
}

impl View for BundleItem {
    type V = SpecItem;

    open spec fn view(&self) -> SpecItem {
        match self {
            BundleItem::Text { path, text } => SpecItem::Text { path: path@, text: text@ },
            BundleItem::Binary { path } => SpecItem::Binary { path: path@ },
        }
    }
}

pub open spec fn items_view(items: Seq<BundleItem>) -> Seq<SpecItem> {
    items.map_values(|i: BundleItem| i@)
}

/// The header line of a file.
pub open spec fn header_line(path: Seq<char>) -> Seq<char> {
    "=="@ + path + " content=="@ + seq!['\n']
}

/// The text of one entry of a bundle: header, then the length in UTF-8
/// bytes and the exact text followed by a line break, or the binary marker
/// and an empty line.
pub open spec fn item_text(item: SpecItem) -> Seq<char> {
    match item {
        SpecItem::Text { path, text } => header_line(path) + LENGTH_PREFIX@ + decimal(
            utf8_len(text),
        ) + METADATA_SUFFIX@ + seq!['\n'] + text + seq!['\n'],
        SpecItem::Binary { path } => header_line(path) + BINARY_MARKER@ + seq!['\n', '\n'],
    }
}

/// The entries of the items, in order.
pub open spec fn items_text(items: Seq<SpecItem>) -> Seq<char>
    decreases items.len(),
{
    if items.len() == 0 {
        Seq::empty()
    } else {
        items_text(items.drop_last()) + item_text(items.last())
    }
}

/// The text of a bundle of the items, in the current format.
pub open spec fn rendered(items: Seq<SpecItem>) -> Seq<char> {
    FORMAT_MARKER@ + seq!['\n'] + items_text(items)
}

/// Writes the bundle of the given items.
pub fn render_bundle(items: &Vec<BundleItem>) -> (r: String)
    ensures
        r@ == rendered(items_view(items@)),
{
    let ghost iv = items_view(items@);
    let mut out: Vec<char> = Vec::new();
    push_str(&mut out, FORMAT_MARKER);
    out.push('\n');
    assert(out@ == FORMAT_MARKER@ + seq!['\n']);
    let mut k: usize = 0;
    assert(iv.take(0) == Seq::<SpecItem>::empty());
    while k < items.len()
        invariant
            k <= items.len(),
            iv == items_view(items@),
            out@ == FORMAT_MARKER@ + seq!['\n'] + items_text(iv.take(k as int)),
        decreases items.len() - k,
    {
        let ghost before = out@;
        assert(iv[k as int] == items@[k as int]@);
        match &items[k] {
            BundleItem::Text { path, text } => {
                push_str(&mut out, "==");
                push_str(&mut out, path.as_str());
                push_str(&mut out, " content==");
                out.push('\n');
                push_str(&mut out, LENGTH_PREFIX);
                assert(items@[k as int]@ == (SpecItem::Text { path: path@, text: text@ }));
                let length = byte_length(text.as_str());
                push_decimal(&mut out, length);
                push_str(&mut out, METADATA_SUFFIX);
                out.push('\n');
                push_str(&mut out, text.as_str());
                out.push('\n');
            },
            BundleItem::Binary { path } => {
                push_str(&mut out, "==");
                push_str(&mut out, path.as_str());
                push_str(&mut out, " content==");
                out.push('\n');
                push_str(&mut out, BINARY_MARKER);
                out.push('\n');
                out.push('\n');
            },
        }
        assert(out@ == before + item_text(iv[k as int]));
        assert(iv.take(k + 1).drop_last() == iv.take(k as int));
        k += 1;
    }
    assert(iv.take(items.len() as int) == iv);
    string_of(&out)
}

/// The number of binary items.
pub fn binary_count(items: &Vec<BundleItem>) -> (n: usize)
    ensures
        n == crate::round_trip::skipped_count(items_view(items@)),
        n <= items.len(),
{
    let ghost iv = items_view(items@);
    let mut n: usize = 0;
    let mut k: usize = 0;
    while k < items.len()
        invariant
            k <= items.len(),
            iv == items_view(items@),
            n == crate::round_trip::skipped_count(iv.take(k as int)),
            n <= k,
        decreases items.len() - k,
    {
        assert(iv.take(k + 1).drop_last() == iv.take(k as int));
        assert(iv.take(k + 1).last() == items@[k as int]@);
        if let BundleItem::Binary { .. } = &items[k] {
            n += 1;
        }
        k += 1;
    }
    assert(iv.take(items.len() as int) == iv);
    n
}

/// What a bundle holds for a file: nothing but its path for a binary file,
/// else its decoded text, compacted when asked and its name allows it.
pub open spec fn bundle_item_spec(path: Seq<char>, file_name: Seq<char>, contents: Seq<u8>, compress: bool) -> SpecItem {
    if probably_binary(contents) {
        SpecItem::Binary { path }
    } else if compress {
        SpecItem::Text { path, text: safely_compressed(file_name, decoded_text(contents)) }
    } else {
        SpecItem::Text { path, text: decoded_text(contents) }
    }
}

/// The bundle entry for a file at `path` (relative, `/`-separated) named
/// `file_name` with the given contents.
pub fn bundle_item(path: &str, file_name: &str, contents: &[u8], compress: bool) -> (r: BundleItem)
    ensures
        r@ == bundle_item_spec(path@, file_name@, contents@, compress),
{
    let path = String::from_str(path);
    if is_probably_binary(contents) {
        return BundleItem::Binary { path };
    }
    let decoded = decode_text(contents);
    let text = if compress {
        safely_compress(file_name, decoded.as_str())
    } else {
        decoded
    };
    BundleItem::Text { path, text }
}

/// `parts` joined by `/`.
pub open spec fn joined(parts: Seq<Seq<char>>) -> Seq<char>
    decreases parts.len(),
{
    if parts.len() == 0 {
        Seq::empty()
    } else if parts.len() == 1 {
        parts[0]
    } else {
        joined(parts.drop_last()) + seq!['/'] + parts.last()
    }
}

/// The path of a bundled file as it appears in the bundle: its components
/// below the bundled folder joined by `/`.
pub fn relative_display(components: &Vec<String>) -> (r: String)
    ensures
        r@ == joined(components@.map_values(|c: String| c@)),
{
    let ghost parts = components@.map_values(|c: String| c@);
    let mut out: Vec<char> = Vec::new();
    let mut k: usize = 0;
    assert(parts.take(0) == Seq::<Seq<char>>::empty());
    while k < components.len()
        invariant
            k <= components.len(),
            parts == components@.map_values(|c: String| c@),
            out@ == joined(parts.take(k as int)),
        decreases components.len() - k,
    {
        assert(parts[k as int] == components@[k as int]@);
        if k > 0 {
            out.push('/');
        }
        push_str(&mut out, components[k].as_str());
        assert(parts.take(k + 1).drop_last() == parts.take(k as int));
        assert(parts.take(k + 1).last() == parts[k as int]);
        k += 1;
    }
    assert(parts.take(components.len() as int) == parts);
    string_of(&out)
}

/// The case-folded keys by which bundled files are ordered.
pub open spec fn folded_keys(paths: Seq<String>) -> Seq<Seq<char>> {
    paths.map_values(|p: String| unicode_lowercase(p@))
}

/// The order in which files go into a bundle: by their relative paths as
/// they appear in it, case-folded, with files whose keys are equal kept in
/// the order in which they were found.
pub fn bundle_order(paths: &Vec<String>) -> (order: Vec<usize>)
    ensures
        stable_sorted(folded_keys(paths@), order@),
{
    let mut keys: Vec<Vec<char>> = Vec::new();
    let mut i: usize = 0;
    while i < paths.len()
        invariant
            i <= paths.len(),
            keys_view(keys@) == folded_keys(paths@).take(i as int),
        decreases paths.len() - i,
    {
        let folded = lowercase(paths[i].as_str());
        let k = chars_of(folded.as_str());
        let ghost before = keys@;
        assert(keys_view(before).len() == before.len());
        assert(folded_keys(paths@).len() == paths@.len());
        assert(before.len() == i);
        keys.push(k);
        assert(keys@ == before.push(k));
        assert(folded_keys(paths@)[i as int] == unicode_lowercase(paths@[i as int]@));
        assert(keys_view(keys@) =~= folded_keys(paths@).take(i + 1)) by {
            assert(keys_view(keys@).len() == i + 1);
            assert forall|j: int| 0 <= j < i + 1 implies keys_view(keys@)[j] == folded_keys(
                paths@,
            ).take(i + 1)[j] by {
                if j < i {
                    assert(keys_view(keys@)[j] == keys@[j]@);
                    assert(keys@[j] == before[j]);
                    assert(keys_view(before)[j] == before[j]@);
                }
            }
        }
        i += 1;
    }
    assert(folded_keys(paths@).take(paths.len() as int) == folded_keys(paths@));
    sorted_order(&keys)
}

/// Name of the `number`th candidate for the bundle file in a folder.
pub open spec fn output_file_name_spec(number: u32) -> Seq<char> {
    if number == 1 {
        "extracted_contents.txt"@
    } else {
        "extracted_contents_"@ + decimal(number as nat) + ".txt"@
    }
}

/// `extracted_contents.txt`, then `extracted_contents_2.txt` and so on: the
/// names tried in turn for a new bundle file.
pub fn output_file_name(number: u32) -> (r: String)
    ensures
        r@ == output_file_name_spec(number),
{
    if number == 1 {
        return String::from_str("extracted_contents.txt");
    }
    let mut out: Vec<char> = Vec::new();
    push_str(&mut out, "extracted_contents_");
    push_decimal(&mut out, number as usize);
    push_str(&mut out, ".txt");
    string_of(&out)
}

/// Name of the `number`th candidate for the folder that a bundle with the
/// file stem `stem` is extracted into.
pub open spec fn embed_folder_name_spec(stem: Option<Seq<char>>, number: u32) -> Seq<char> {
    let base = match stem {
        Some(s) => if s.len() > 0 {
            s
        } else {
            "extracted_contents"@
        },
        None => "extracted_contents"@,
    };
    if number == 1 {
        base + "_embedded"@
    } else {
        base + "_embedded_"@ + decimal(number as nat)
    }
}

/// `<stem>_embedded`, then `<stem>_embedded_2` and so on, where the stem
/// is that of the bundle file or `extracted_contents` when it has none.
pub fn embed_folder_name(stem: Option<&str>, number: u32) -> (r: String)
    ensures
        r@ == embed_folder_name_spec(
            match stem {
                Some(s) => Some(s@),
                None => None,
            },
            number,
        ),
{
    let mut out: Vec<char> = Vec::new();
    match stem {
        Some(s) => {
            if s.is_empty() {
                push_str(&mut out, "extracted_contents");
            } else {
                push_str(&mut out, s);
            }
        },
        None => push_str(&mut out, "extracted_contents"),
    }
    if number == 1 {
        push_str(&mut out, "_embedded");
    } else {
        push_str(&mut out, "_embedded_");
        push_decimal(&mut out, number as usize);
    }
    string_of(&out)
}

/// The decimal text of a number names only that number.
proof fn lemma_decimal_injective(a: nat, b: nat)
    requires
        decimal(a) == decimal(b),
    ensures
        a == b,
{
    lemma_decimal_digits(a);
    lemma_decimal_digits(b);
}

/// The candidate names for a new bundle file are all different, so trying
/// them in turn never tries a name twice.
pub proof fn lemma_output_names_differ(a: u32, b: u32)
    requires
        a != b,
        a >= 1,
        b >= 1,
    ensures
        output_file_name_spec(a) != output_file_name_spec(b),
{
    reveal_strlit("extracted_contents.txt");
    reveal_strlit("extracted_contents_");
    reveal_strlit(".txt");
    if a != 1 && b != 1 {
        let na = output_file_name_spec(a);
        let nb = output_file_name_spec(b);
        if na == nb {
            assert(na.subrange(19, na.len() - 4) == decimal(a as nat));
            assert(nb.subrange(19, nb.len() - 4) == decimal(b as nat));
            lemma_decimal_injective(a as nat, b as nat);
        }
    } else {
        let other = if a == 1 {
            b
        } else {
            a
        };
        assert(output_file_name_spec(other)[18] == '_');
        assert(output_file_name_spec(1)[18] == '.');
    }
}

/// The candidate names for the folder that a bundle is extracted into are
/// all different for one stem, so trying them in turn never tries a name
/// twice.
pub proof fn lemma_embed_folder_names_differ(stem: Option<Seq<char>>, a: u32, b: u32)
    requires
        a != b,
        a >= 1,
        b >= 1,
    ensures
        embed_folder_name_spec(stem, a) != embed_folder_name_spec(stem, b),
{
    reveal_strlit("_embedded");
    reveal_strlit("_embedded_");
    let na = embed_folder_name_spec(stem, a);
    let nb = embed_folder_name_spec(stem, b);
    if na == nb {
        lemma_decimal_digits(a as nat);
        lemma_decimal_digits(b as nat);
        if a != 1 && b != 1 {
            let base = embed_folder_name_spec(stem, 1).take(embed_folder_name_spec(stem, 1).len() - 9);
            assert(na == base + "_embedded_"@ + decimal(a as nat));
            assert(nb == base + "_embedded_"@ + decimal(b as nat));
            assert(na.subrange(na.len() - decimal(a as nat).len(), na.len() as int) == decimal(a as nat));
            assert(nb.subrange(nb.len() - decimal(b as nat).len(), nb.len() as int) == decimal(b as nat));
            lemma_decimal_injective(a as nat, b as nat);
        } else {
            let n = if a == 1 {
                b
            } else {
                a
            };
            let d = decimal(n as nat);
            let long = embed_folder_name_spec(stem, n);
            let short = embed_folder_name_spec(stem, 1);
            assert(long.len() == short.len() + 1 + d.len());
            assert(false);
        }
    }
}


/// The UTF-16 code units of one character.
pub open spec fn utf16_of(c: char) -> Seq<u16> {
    let v = c as u32;
    if v < 0x10000 {
        seq![v as u16]
    } else {
        seq![(0xD800 + (v - 0x10000) / 0x400) as u16, (0xDC00 + (v - 0x10000) % 0x400) as u16]
    }
}

/// The UTF-16 code units of a text.
pub open spec fn utf16_of_text(cs: Seq<char>) -> Seq<u16>
    decreases cs.len(),
{
    if cs.len() == 0 {
        Seq::empty()
    } else {
        utf16_of(cs[0]) + utf16_of_text(cs.drop_first())
    }
}

/// Code units as bytes, low byte first when `little_endian`.
pub open spec fn unit_bytes(units: Seq<u16>, little_endian: bool) -> Seq<u8> {
    Seq::new(
        2 * units.len(),
        |i: int|
            if (i % 2 == 0) == little_endian {
                (units[i / 2] % 256) as u8
            } else {
                (units[i / 2] / 256) as u8
            },
    )
}

/// Decoding the UTF-16 units of a text gives the text back.
proof fn lemma_utf16_decodes(u: Seq<u16>, i: int, cs: Seq<char>)
    requires
        0 <= i <= u.len(),
        u.subrange(i, u.len() as int) == utf16_of_text(cs),
    ensures
        utf16_decoded(u, i) == cs,
    decreases cs.len(),
{
    if cs.len() == 0 {
        assert(utf16_of_text(cs) == Seq::<u16>::empty());
        assert(u.subrange(i, u.len() as int).len() == u.len() - i);
        assert(u.len() == i);
    } else {
        let c = cs[0];
        let v = c as u32;
        vstd::utf8::char_is_scalar(c);
        let w = utf16_of(c);
        let rest = cs.drop_first();
        let r = utf16_of_text(rest);
        let t = u.subrange(i, u.len() as int);
        assert(t == w + r);
        assert(u[i] == t[0]);
        assert(t[0] == w[0]);
        assert(u.subrange(i + w.len(), u.len() as int) =~= t.skip(w.len() as int));
        assert(t.skip(w.len() as int) =~= r);
        if v < 0x10000 {
            lemma_utf16_decodes(u, i + 1, rest);
            assert(u[i] == v as u16);
            assert(v < 0xD800 || v > 0xDFFF);
            assert(((u[i] as u32) as char) == c) by {
                vstd::utf8::char_u32_cast(c, v);
            }
            assert(utf16_decoded(u, i) == seq![c] + rest);
        } else {
            let x = (v - 0x10000) as int;
            assert(x == 0x400 * (x / 0x400) + x % 0x400) by {
                vstd::arithmetic::div_mod::lemma_fundamental_div_mod(x, 0x400);
            }
            assert(0 <= x % 0x400 < 0x400) by (nonlinear_arith);
            assert(x / 0x400 < 0x400) by (nonlinear_arith)
                requires
                    0 <= x < 0x100000,
            ;
            assert(u[i + 1] == t[1]);
            assert(t[1] == w[1]);
            lemma_utf16_decodes(u, i + 2, rest);
            let value = (0x10000 + (u[i] - 0xD800) * 0x400 + (u[i + 1] - 0xDC00)) as u32;
            assert(value == v);
            assert((value as char) == c) by {
                vstd::utf8::char_u32_cast(c, v);
            }
            assert(utf16_decoded(u, i) == seq![c] + rest);
        }
        assert(seq![c] + rest == cs);
    }
}

/// Reading the bytes of code units back gives the code units.
proof fn lemma_unit_bytes(units: Seq<u16>, little_endian: bool, mark: Seq<u8>)
    requires
        mark.len() == 2,
    ensures
        utf16_units(mark + unit_bytes(units, little_endian), little_endian) == units,
{
    let b = mark + unit_bytes(units, little_endian);
    let got = utf16_units(b, little_endian);
    assert(got.len() == units.len());
    assert forall|k: int| 0 <= k < units.len() implies got[k] == units[k] by {
        let lo = units[k] % 256;
        let hi = units[k] / 256;
        assert(units[k] == 256 * hi + lo) by {
            vstd::arithmetic::div_mod::lemma_fundamental_div_mod(units[k] as int, 256);
        }
        assert((2 * k) % 2 == 0 && (2 * k + 1) % 2 == 1 && (2 * k) / 2 == k && (2 * k + 1) / 2 == k) by (nonlinear_arith);
        assert(b[2 + 2 * k] == unit_bytes(units, little_endian)[2 * k]);
        assert(b[3 + 2 * k] == unit_bytes(units, little_endian)[2 * k + 1]);
        assert(hi < 256) by (nonlinear_arith)
            requires
                hi == units[k] / 256,
                units[k] < 65536,
        ;
    }
    assert(got =~= units);
}

/// Text decoding undoes UTF-16 encoding: a text written as UTF-16 after its
/// byte order mark, little- or big-endian, decodes to that text.
pub proof fn lemma_utf16_text_round_trip(cs: Seq<char>)
    ensures
        decoded_text(seq![0xffu8, 0xfeu8] + unit_bytes(utf16_of_text(cs), true)) == cs,
        decoded_text(seq![0xfeu8, 0xffu8] + unit_bytes(utf16_of_text(cs), false)) == cs,
{
    let u = utf16_of_text(cs);
    assert(u.subrange(0, u.len() as int) == u);
    lemma_utf16_decodes(u, 0, cs);
    lemma_unit_bytes(u, true, seq![0xffu8, 0xfeu8]);
    lemma_unit_bytes(u, false, seq![0xfeu8, 0xffu8]);
    assert((seq![0xffu8, 0xfeu8] + unit_bytes(u, true))[0] == 0xff);
    assert((seq![0xffu8, 0xfeu8] + unit_bytes(u, true))[1] == 0xfe);
    assert((seq![0xfeu8, 0xffu8] + unit_bytes(u, false))[0] == 0xfe);
    assert((seq![0xfeu8, 0xffu8] + unit_bytes(u, false))[1] == 0xff);
}


/// Text written as UTF-8 after a UTF-8 byte order mark meets the condition
/// under which `decode_text` decodes it exactly, and decodes to itself.
pub proof fn lemma_utf8_text_round_trip(cs: Seq<char>)
    ensures
        ({
            let b = seq![0xefu8, 0xbbu8, 0xbfu8] + vstd::utf8::encode_utf8(cs);
            &&& b.len() >= 3 && b[0] == 0xef && b[1] == 0xbb && b[2] == 0xbf
            &&& vstd::utf8::valid_utf8(b.skip(3))
            &&& vstd::utf8::decode_utf8(b.skip(3)) == cs
        }),
{
    let b = seq![0xefu8, 0xbbu8, 0xbfu8] + vstd::utf8::encode_utf8(cs);
    assert(b.skip(3) == vstd::utf8::encode_utf8(cs));
    vstd::utf8::encode_utf8_valid_utf8(cs);
    vstd::utf8::encode_utf8_decode_utf8(cs);
}

} // verus!
