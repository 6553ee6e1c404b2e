//! Finding the source files of a workspace and indexing them; paths and `file:`
//! URIs, one from the other.

use crate::path::{
    extension, extension_of, file_name, is_part, joined_path,
    law_a_name_below_a_path_is_one_part_more, name_of,
};
use crate::protocol::Uri;
use crate::symbol::{SymbolInfo, SymbolView, document_symbols, extract_symbols, symbol_views};
use crate::syntax::{SyntaxTree, java_nodes};
use crate::text::{
    from_range, lemma_encode_add, lemma_is_last_index, lemma_texts_push, opt_text, replace_range,
    replaced, same_text, starts_with, texts, to_chars,
};
use crate::transport::same_ignoring_case;
use crate::workspace_index::{FileUpdate, SCANNED_FROM_DISK, UpdateView};
use crate::lombok::{Overrides, override_views};
use vstd::prelude::*;
use vstd::string::*;
use vstd::utf8::{
    decode_utf8, encode_utf8, encode_utf8_decode_utf8, encode_utf8_valid_utf8, is_ascii_chars,
    is_ascii_chars_encode_utf8, valid_utf8,
};

verus! {

// ---------------------------------------------------------------------------
// Percent encoding
// ---------------------------------------------------------------------------

/// Whether a byte stands for itself in a URI's path.
pub open spec fn is_plain(b: u8) -> bool {
    (65 <= b <= 90) || (97 <= b <= 122) || (48 <= b <= 57) || b == 45 || b == 46 || b == 95 || b
        == 126 || b == 47
}

/// The upper-case hexadecimal digit of a number below sixteen.
pub open spec fn upper_hex(n: int) -> char {
    if n < 10 {
        ('0' as u32 + n) as u32 as char
    } else {
        ('A' as u32 + (n - 10)) as u32 as char
    }
}

/// A byte in a URI's path: itself, or a percent sign and two hexadecimal
/// digits.
pub open spec fn encoded_byte(b: u8) -> Seq<char> {
    if is_plain(b) {
        seq![b as char]
    } else {
        seq!['%', upper_hex(b as int / 16), upper_hex(b as int % 16)]
    }
}

/// Bytes in a URI's path.
pub open spec fn percent_encoded(bytes: Seq<u8>) -> Seq<char>
    decreases bytes.len(),
{
    if bytes.len() == 0 {
        Seq::empty()
    } else {
        encoded_byte(bytes[0]) + percent_encoded(bytes.skip(1))
    }
}

/// The value of a hexadecimal digit.
pub open spec fn hex_value(b: u8) -> Option<int> {
    if 48 <= b <= 57 {
        Some(b - 48)
    } else if 65 <= b <= 70 {
        Some(b - 55)
    } else if 97 <= b <= 102 {
        Some(b - 87)
    } else {
        None
    }
}

/// The byte that two characters behind a percent sign spell: two hexadecimal
/// digits, or a plus sign and one.
pub open spec fn hex_pair(a: u8, b: u8) -> Option<int> {
    match hex_value(b) {
        Some(low) => if a == 43 {
            Some(low)
        } else {
            match hex_value(a) {
                Some(high) => Some(16 * high + low),
                None => None,
            }
        },
        None => None,
    }
}

/// The bytes that a URI's path stands for. A percent sign that no hexadecimal
/// number follows stands for itself.
pub open spec fn percent_decoded(path: Seq<u8>) -> Seq<u8>
    decreases path.len(),
{
    if path.len() == 0 {
        Seq::empty()
    } else if path[0] == 37 && path.len() > 2 && hex_pair(path[1], path[2]) is Some {
        seq![hex_pair(path[1], path[2])->0 as u8] + percent_decoded(path.skip(3))
    } else {
        seq![path[0]] + percent_decoded(path.skip(1))
    }
}

fn upper_hex_digit(n: u8) -> (r: char)
    requires
        n < 16,
    ensures
        r == upper_hex(n as int),
{
    match n {
        0 => '0',
        1 => '1',
        2 => '2',
        3 => '3',
        4 => '4',
        5 => '5',
        6 => '6',
        7 => '7',
        8 => '8',
        9 => '9',
        10 => 'A',
        11 => 'B',
        12 => 'C',
        13 => 'D',
        14 => 'E',
        _ => 'F',
    }
}

pub fn percent_encode_path(path: &str) -> (r: String)
    ensures
        r@ == percent_encoded(encode_utf8(path@)),
{
    let bytes = path.as_bytes();
    let mut encoded = String::new();
    let mut i: usize = 0;
    let ghost whole = percent_encoded(bytes@);
    assert(bytes@.skip(0) =~= bytes@);
    assert(encoded@ + whole =~= whole);
    while i < bytes.len()
        invariant
            i <= bytes@.len(),
            whole == encoded@ + percent_encoded(bytes@.skip(i as int)),
        decreases bytes@.len() - i,
    {
        let b = bytes[i];
        let ghost before = encoded@;
        let ghost rest = percent_encoded(bytes@.skip(i + 1));
        proof {
            assert(bytes@.skip(i as int)[0] == b);
            assert(bytes@.skip(i as int).skip(1) =~= bytes@.skip(i + 1));
        }
        if (65 <= b && b <= 90) || (97 <= b && b <= 122) || (48 <= b && b <= 57) || b == 45 || b
            == 46 || b == 95 || b == 126 || b == 47 {
            encoded.push(b as char);
        } else {
            encoded.push('%');
            encoded.push(upper_hex_digit(b / 16));
            encoded.push(upper_hex_digit(b % 16));
        }
        assert(encoded@ =~= before + encoded_byte(b));
        assert(before + (encoded_byte(b) + rest) =~= encoded@ + rest);
        i += 1;
    }
    assert(encoded@ + percent_encoded(bytes@.skip(i as int)) =~= encoded@);
    encoded
}

fn hex_digit_value(b: u8) -> (r: Option<u8>)
    ensures
        match r {
            Some(v) => hex_value(b) == Some(v as int) && v < 16,
            None => hex_value(b) is None,
        },
{
    if 48 <= b && b <= 57 {
        Some(b - 48)
    } else if 65 <= b && b <= 70 {
        Some(b - 55)
    } else if 97 <= b && b <= 102 {
        Some(b - 87)
    } else {
        None
    }
}

fn hex_pair_value(a: u8, b: u8) -> (r: Option<u8>)
    ensures
        match r {
            Some(v) => hex_pair(a, b) == Some(v as int),
            None => hex_pair(a, b) is None,
        },
{
    match hex_digit_value(b) {
        Some(low) => if a == 43 {
            Some(low)
        } else {
            match hex_digit_value(a) {
                Some(high) => Some(16 * high + low),
                None => None,
            }
        },
        None => None,
    }
}

/// The text of bytes that are not all UTF-8, with what is not replaced.
pub uninterp spec fn lossy_utf8(bytes: Seq<u8>) -> Seq<char>;

/// The text of bytes: what they say in UTF-8, as far as they are that.
pub open spec fn lossy_text(bytes: Seq<u8>) -> Seq<char> {
    if valid_utf8(bytes) {
        decode_utf8(bytes)
    } else {
        lossy_utf8(bytes)
    }
}

/// `String::from_utf8_lossy`: the text of bytes in valid UTF-8; of other bytes
/// a text that depends on the bytes alone, and of which nothing more is said.
#[verifier::external_body]
fn text_lossy(bytes: &[u8]) -> (r: String)
    ensures
        r@ == if valid_utf8(bytes@) {
            decode_utf8(bytes@)
        } else {
            lossy_utf8(bytes@)
        },
{
    String::from_utf8_lossy(bytes).into_owned()
}

pub fn percent_decode_path(path: &str) -> (r: String)
    ensures
        r@ == lossy_text(percent_decoded(encode_utf8(path@))),
{
    let bytes = path.as_bytes();
    let mut decoded: Vec<u8> = Vec::new();
    let mut i: usize = 0;
    let ghost whole = percent_decoded(bytes@);
    assert(bytes@.skip(0) =~= bytes@);
    assert(decoded@ + whole =~= whole);
    while i < bytes.len()
        invariant
            i <= bytes@.len(),
            whole == decoded@ + percent_decoded(bytes@.skip(i as int)),
        decreases bytes@.len() - i,
    {
        let ghost here = bytes@.skip(i as int);
        let ghost before = decoded@;
        assert(here[0] == bytes@[i as int]);
        let pair: Option<u8> = if bytes[i] == 37 && bytes.len() - i > 2 {
            assert(here[1] == bytes@[i + 1] && here[2] == bytes@[i + 2]);
            hex_pair_value(bytes[i + 1], bytes[i + 2])
        } else {
            None
        };
        match pair {
            Some(value) => {
                decoded.push(value);
                assert(here.skip(3) =~= bytes@.skip(i + 3));
                assert(before + (seq![value] + percent_decoded(bytes@.skip(i + 3)))
                    =~= decoded@ + percent_decoded(bytes@.skip(i + 3)));
                i += 3;
            },
            None => {
                decoded.push(bytes[i]);
                assert(here.skip(1) =~= bytes@.skip(i + 1));
                assert(before + (seq![here[0]] + percent_decoded(bytes@.skip(i + 1)))
                    =~= decoded@ + percent_decoded(bytes@.skip(i + 1)));
                i += 1;
            },
        }
    }
    assert(decoded@ + percent_decoded(bytes@.skip(i as int)) =~= decoded@);
    text_lossy(decoded.as_slice())
}

// ---------------------------------------------------------------------------
// URIs
// ---------------------------------------------------------------------------

/// The scheme and the path of a URI; `None` where the text is no URI.
pub uninterp spec fn uri_parts(text: Seq<char>) -> Option<(Option<Seq<char>>, Seq<char>)>;

pub open spec fn parts_view(parts: Option<(Option<String>, String)>) -> Option<
    (Option<Seq<char>>, Seq<char>),
> {
    match parts {
        Some((scheme, path)) => Some((opt_text(scheme), path@)),
        None => None,
    }
}

/// The number of bytes that a URI may have.
pub open spec fn max_uri_len() -> int {
    0x7FFF_FFFF
}

/// `lsp_types::Uri::from_str`, then `scheme` and `path` of the URI: they depend
/// on the text alone. Of `file://` and a percent-encoded absolute path, the
/// scheme is `file` and the path is that one.
#[verifier::external_body]
fn split_uri(text: &str) -> (r: Option<(Option<String>, String)>)
    requires
        encode_utf8(text@).len() <= max_uri_len(),
    ensures
        parts_view(r) == uri_parts(text@),
        forall|b: Seq<u8>|
            b.len() > 0 && b[0] == 47 && text@ == "file://"@ + #[trigger] percent_encoded(b)
                ==> parts_view(r) == Some((Some("file"@), percent_encoded(b))),
{
    let uri: lsp_types::Uri = text.parse().ok()?;
    let scheme = uri.scheme().map(|scheme| scheme.as_str().to_owned());
    Some((scheme, uri.path().as_str().to_owned()))
}

/// A path as it stands in a URI: with slashes, and one at its start.
pub open spec fn normalized(path: Seq<char>) -> Seq<char> {
    let slashed = replaced(path, '\\', '/');
    if slashed.len() > 0 && slashed[0] == '/' {
        slashed
    } else {
        seq!['/'] + slashed
    }
}

/// The URI of a path.
pub open spec fn uri_of_path(path: Seq<char>) -> Seq<char> {
    "file://"@ + percent_encoded(encode_utf8(normalized(path)))
}

/// A path without the slash before a drive letter.
pub open spec fn without_drive_slash(path: Seq<char>) -> Seq<char> {
    if path.len() >= 3 && path[0] == '/' && crate::text::is_ascii_letter(path[1]) && path[2]
        == ':' {
        path.skip(1)
    } else {
        path
    }
}

/// The path of a URI, where it is a file's.
pub open spec fn path_of_uri(uri: Seq<char>) -> Option<Seq<char>> {
    if encode_utf8(uri).len() > max_uri_len() {
        None
    } else {
        path_of_parts(uri_parts(uri))
    }
}

/// The path of a URI with this scheme and path, where it is a file's.
pub open spec fn path_of_parts(parts: Option<(Option<Seq<char>>, Seq<char>)>) -> Option<Seq<char>> {
    match parts {
        Some((Some(scheme), path)) => if same_ignoring_case(scheme, "file"@) {
            Some(without_drive_slash(lossy_text(percent_decoded(encode_utf8(path)))))
        } else {
            None
        },
        _ => None,
    }
}

pub fn normalize_path_for_uri(path: &str) -> (r: String)
    ensures
        r@ == normalized(path@),
{
    let chars = to_chars(path);
    assert(chars@.subrange(0, chars@.len() as int) =~= path@);
    let slashed = replace_range(&chars, 0, chars.len(), '\\', '/');
    if starts_with(slashed.as_str(), "/") {
        proof {
            reveal_strlit("/");
            assert("/"@[0] == slashed@[0]);
        }
        slashed
    } else {
        proof {
            reveal_strlit("/");
            if slashed@.len() > 0 && slashed@[0] == '/' {
                assert("/"@.is_prefix_of(slashed@));
            }
        }
        let mut out = String::new();
        out.push('/');
        out.append(slashed.as_str());
        assert(out@ =~= seq!['/'] + slashed@);
        out
    }
}

/// The URI of a path, where it is not too long for one; the URI's path leads
/// back to the path, with slashes in it. The path is not canonicalized:
/// resolving links here while the editor names a file by its own URI would
/// index the same file under two names.
pub fn path_to_uri(path: &str) -> (r: Option<Uri>)
    ensures
        match r {
            Some(uri) => uri@ == uri_of_path(path@) && encode_utf8(uri@).len() <= max_uri_len()
                && path_of_uri(uri@) == Some(without_drive_slash(normalized(path@))),
            None => encode_utf8(uri_of_path(path@)).len() > max_uri_len(),
        },
{
    let normalized = normalize_path_for_uri(path);
    let mut text = "file://".to_owned();
    text.append(percent_encode_path(normalized.as_str()).as_str());
    if text.as_str().as_bytes().len() > 0x7FFF_FFFF {
        return None;
    }
    proof {
        let bytes = encode_utf8(normalized@);
        lemma_encode_starts_with_slash(normalized@);
        law_percent_decoding_undoes_encoding(bytes);
        encode_utf8_valid_utf8(normalized@);
        encode_utf8_decode_utf8(normalized@);
        assert(text@ == "file://"@ + percent_encoded(bytes));
        assert(same_ignoring_case("file"@, "file"@));
    }
    match split_uri(text.as_str()) {
        Some(_) => Some(Uri { text }),
        None => None,
    }
}

proof fn lemma_encoded_byte(b: u8)
    ensures
        is_ascii_chars(encoded_byte(b)),
        !is_plain(b) ==> hex_pair(
            upper_hex(b as int / 16) as u8,
            upper_hex(b as int % 16) as u8,
        ) == Some(b as int),
{
    let c = encoded_byte(b);
    if is_plain(b) {
        assert(c[0] as u32 == b);
    } else {
        let (h, l) = (b as int / 16, b as int % 16);
        assert(0 <= h < 16 && 0 <= l < 16);
        assert((upper_hex(h) as u32) < 128 && (upper_hex(l) as u32) < 128);
        assert(hex_value(upper_hex(h) as u8) == Some(h));
        assert(hex_value(upper_hex(l) as u8) == Some(l));
        assert(c[0] == '%' && c[1] == upper_hex(h) && c[2] == upper_hex(l));
    }
}

/// Decoding gives back every byte that was encoded.
pub proof fn law_percent_decoding_undoes_encoding(bytes: Seq<u8>)
    ensures
        percent_decoded(encode_utf8(percent_encoded(bytes))) == bytes,
    decreases bytes.len(),
{
    if bytes.len() == 0 {
        assert(percent_decoded(encode_utf8(percent_encoded(bytes))) =~= bytes);
    } else {
        let b = bytes[0];
        let rest = percent_encoded(bytes.skip(1));
        law_percent_decoding_undoes_encoding(bytes.skip(1));
        lemma_encoded_byte(b);
        let code = encoded_byte(b);
        lemma_encode_add(code, rest);
        is_ascii_chars_encode_utf8(code);
        let head = encode_utf8(code);
        let tail = encode_utf8(rest);
        let all = head + tail;
        assert(head.len() == code.len());
        if is_plain(b) {
            assert(all[0] == code[0] as u8);
            assert(all[0] == b && b != 37);
            assert(all.skip(1) =~= tail);
        } else {
            assert(all[0] == code[0] as u8 && all[1] == code[1] as u8 && all[2] == code[2] as u8);
            assert(all[0] == 37);
            assert(all.skip(3) =~= tail);
        }
        assert(seq![b] + bytes.skip(1) =~= bytes);
    }
}

proof fn lemma_encode_starts_with_slash(s: Seq<char>)
    requires
        s.len() > 0,
        s[0] == '/',
    ensures
        encode_utf8(s).len() > 0,
        encode_utf8(s)[0] == 47,
{
    let head = seq!['/'];
    assert(s =~= head + s.skip(1));
    lemma_encode_add(head, s.skip(1));
    assert(is_ascii_chars(head));
    is_ascii_chars_encode_utf8(head);
    assert(encode_utf8(s)[0] == encode_utf8(head)[0]);
}

fn strip_windows_drive_prefix(path: &str) -> (r: String)
    ensures
        r@ == without_drive_slash(path@),
{
    let chars = to_chars(path);
    if chars.len() >= 3 && chars[0] == '/' && (('a' <= chars[1] && chars[1] <= 'z') || ('A'
        <= chars[1] && chars[1] <= 'Z')) && chars[2] == ':' {
        assert(chars@.subrange(1, chars@.len() as int) =~= path@.skip(1));
        from_range(&chars, 1, chars.len())
    } else {
        path.to_owned()
    }
}

/// The path of a URI with this scheme and path, where it is a file's.
pub fn path_from_parts(parts: &Option<(Option<String>, String)>) -> (r: Option<String>)
    ensures
        opt_text(r) == path_of_parts(parts_view(*parts)),
{
    match parts {
        Some((Some(scheme), path)) => {
            if is_file_scheme(scheme.as_str()) {
                let decoded = percent_decode_path(path.as_str());
                Some(strip_windows_drive_prefix(decoded.as_str()))
            } else {
                None
            }
        },
        _ => None,
    }
}

fn is_file_scheme(scheme: &str) -> (r: bool)
    ensures
        r == same_ignoring_case(scheme@, "file"@),
{
    let a = to_chars(scheme);
    let b = to_chars("file");
    crate::transport::eq_ignoring_case(&a, &b)
}

/// The path of a URI, where it is a file's.
pub fn uri_to_path(uri: &Uri) -> (r: Option<String>)
    ensures
        opt_text(r) == path_of_uri(uri@),
{
    if uri.as_str().as_bytes().len() > 0x7FFF_FFFF {
        return None;
    }
    path_from_parts(&split_uri(uri.as_str()))
}

// ---------------------------------------------------------------------------
// Source files
// ---------------------------------------------------------------------------

/// Something that a directory holds.
pub struct DirEntry {
    pub path: String,
    pub is_dir: bool,
}

/// What a [`DirEntry`] says, as mathematical values.
pub struct EntryView {
    pub path: Seq<char>,
    pub is_dir: bool,
}

impl View for DirEntry {
    type V = EntryView;

    open spec fn view(&self) -> EntryView {
        EntryView { path: self.path@, is_dir: self.is_dir }
    }
}

/// The entries of a list, as mathematical values.
pub open spec fn entry_views(list: Seq<DirEntry>) -> Seq<EntryView> {
    list.map_values(|e: DirEntry| e@)
}

/// Whether a path's name starts with a dot.
pub open spec fn is_hidden(path: Seq<char>) -> bool {
    match name_of(path) {
        Some(name) => name.len() > 0 && name[0] == '.',
        None => false,
    }
}

pub open spec fn is_java_file(path: Seq<char>) -> bool {
    extension_of(path) == Some("java"@)
}

/// The Java files among entries and below them, in their order, hidden
/// directories left out; `holds` gives what a directory holds. `None` where
/// directories nest more than `depth` deep.
pub open spec fn java_files(
    entries: Seq<EntryView>,
    holds: spec_fn(Seq<char>) -> Seq<EntryView>,
    depth: nat,
) -> Option<Seq<Seq<char>>>
    decreases depth, entries.len(),
{
    if entries.len() == 0 {
        Some(Seq::empty())
    } else {
        let e = entries[0];
        let first = if e.is_dir {
            if is_hidden(e.path) {
                Some(Seq::empty())
            } else if depth == 0 {
                None
            } else {
                java_files(holds(e.path), holds, (depth - 1) as nat)
            }
        } else if is_java_file(e.path) {
            Some(seq![e.path])
        } else {
            Some(Seq::empty())
        };
        match (first, java_files(entries.skip(1), holds, depth)) {
            (Some(a), Some(b)) => Some(a + b),
            _ => None,
        }
    }
}

/// A search for Java files, one directory at a time: the entries still to look
/// at, the next one last, and the files found.
pub struct FileSearch {
    pending: Vec<DirEntry>,
    files: Vec<String>,
}

/// What a [`FileSearch`] has come to, as mathematical values; the next entry
/// to look at comes first.
pub struct FileSearchView {
    pub pending: Seq<EntryView>,
    pub files: Seq<Seq<char>>,
}

impl View for FileSearch {
    type V = FileSearchView;

    closed spec fn view(&self) -> FileSearchView {
        FileSearchView {
            pending: entry_views(self.pending@).reverse(),
            files: texts(self.files@),
        }
    }
}

/// The search once every entry before the next directory to list is dealt
/// with, and that directory, which is then off the list.
pub open spec fn up_to_next_dir(search: FileSearchView) -> (FileSearchView, Option<Seq<char>>)
    decreases search.pending.len(),
{
    if search.pending.len() == 0 {
        (search, None)
    } else {
        let e = search.pending[0];
        let rest = search.pending.skip(1);
        if e.is_dir && !is_hidden(e.path) {
            (FileSearchView { pending: rest, ..search }, Some(e.path))
        } else if !e.is_dir && is_java_file(e.path) {
            up_to_next_dir(FileSearchView { pending: rest, files: search.files.push(e.path) })
        } else {
            up_to_next_dir(FileSearchView { pending: rest, ..search })
        }
    }
}

fn has_hidden_name(path: &str) -> (r: bool)
    ensures
        r == is_hidden(path@),
{
    match file_name(path) {
        Some(name) => {
            let chars = to_chars(name.as_str());
            chars.len() > 0 && chars[0] == '.'
        },
        None => false,
    }
}

fn has_java_extension(path: &str) -> (r: bool)
    ensures
        r == is_java_file(path@),
{
    match extension(path) {
        Some(ext) => same_text(ext.as_str(), "java"),
        None => false,
    }
}

impl FileSearch {
    /// A search below a root that holds these entries.
    pub fn new(entries: Vec<DirEntry>) -> (r: Self)
        ensures
            r@ == (FileSearchView { pending: entry_views(entries@), files: Seq::empty() }),
    {
        let mut r = FileSearch { pending: Vec::new(), files: Vec::new() };
        assert(r@.pending =~= Seq::empty());
        assert(r@.files =~= Seq::empty());
        assert(entry_views(entries@) + Seq::empty() =~= entry_views(entries@));
        r.listed(entries);
        r
    }

    /// Takes in what the directory that was next holds.
    pub fn listed(&mut self, entries: Vec<DirEntry>)
        ensures
            final(self)@ == (FileSearchView {
                pending: entry_views(entries@) + old(self)@.pending,
                files: old(self)@.files,
            }),
    {
        let ghost views = entry_views(entries@);
        let ghost rest = entry_views(self.pending@).reverse();
        let mut i: usize = entries.len();
        assert(views.skip(i as int) =~= Seq::empty());
        assert(Seq::<EntryView>::empty() + rest =~= rest);
        while i > 0
            invariant
                i <= entries.len(),
                views == entry_views(entries@),
                self.files == old(self).files,
                entry_views(self.pending@).reverse() == views.skip(i as int) + rest,
            decreases i,
        {
            i -= 1;
            let ghost before = self.pending@;
            let entry = DirEntry { path: entries[i].path.clone(), is_dir: entries[i].is_dir };
            assert(entry@ == views[i as int]);
            self.pending.push(entry);
            proof {
                assert(entry_views(self.pending@) =~= entry_views(before).push(entry@));
                assert(entry_views(self.pending@).reverse() =~= seq![entry@] + entry_views(
                    before,
                ).reverse());
                assert(views.skip(i as int) =~= seq![views[i as int]] + views.skip(i + 1));
                assert(entry_views(self.pending@).reverse() =~= views.skip(i as int) + rest);
            }
        }
        assert(views.skip(0) =~= views);
    }

    /// The next directory to list, once every file before it is dealt with;
    /// `None` where the search is over.
    pub fn next_dir(&mut self) -> (r: Option<String>)
        ensures
            (final(self)@, opt_text(r)) == up_to_next_dir(old(self)@),
    {
        let ghost start = self@;
        loop
            invariant
                start == old(self)@,
                up_to_next_dir(self@) == up_to_next_dir(start),
            decreases self@.pending.len(),
        {
            let ghost now = self@;
            let ghost stack = entry_views(self.pending@);
            assert(stack.reverse().len() == self.pending@.len());
            match self.pending.pop() {
                None => {
                    assert(self@.pending =~= now.pending);
                    return None;
                },
                Some(entry) => {
                    proof {
                        assert(now.pending[0] == entry@);
                        assert(entry_views(self.pending@) =~= stack.drop_last());
                        assert(self@.pending =~= now.pending.skip(1));
                    }
                    if entry.is_dir {
                        if !has_hidden_name(entry.path.as_str()) {
                            return Some(entry.path);
                        }
                    } else if has_java_extension(entry.path.as_str()) {
                        proof {
                            lemma_texts_push(self.files@, entry.path);
                        }
                        self.files.push(entry.path);
                    }
                },
            }
        }
    }

    /// The files found.
    pub fn files(&self) -> (r: &Vec<String>)
        ensures
            texts(r@) == self@.files,
    {
        &self.files
    }
}

/// Going on to the next directory and listing it leaves unchanged what the
/// search will have found in the end: a search that is carried on until it is
/// over finds every Java file that no hidden directory holds, in order.
pub proof fn law_search_finds_the_java_files_in_order(
    search: FileSearchView,
    holds: spec_fn(Seq<char>) -> Seq<EntryView>,
    depth: nat,
)
    requires
        java_files(search.pending, holds, depth) is Some,
    ensures
        ({
            let (next, dir) = up_to_next_dir(search);
            let all = search.files + java_files(search.pending, holds, depth)->0;
            match dir {
                Some(d) => {
                    let listed = holds(d) + next.pending;
                    java_files(listed, holds, depth) is Some && next.files + java_files(
                        listed,
                        holds,
                        depth,
                    )->0 == all
                },
                None => next.files == all,
            }
        }),
    decreases search.pending.len(),
{
    if search.pending.len() == 0 {
        assert(search.files + Seq::<Seq<char>>::empty() =~= search.files);
    } else {
        let e = search.pending[0];
        let rest = search.pending.skip(1);
        let tail = java_files(rest, holds, depth)->0;
        if e.is_dir && !is_hidden(e.path) {
            let below = java_files(holds(e.path), holds, (depth - 1) as nat)->0;
            lemma_files_depth(holds(e.path), holds, (depth - 1) as nat, depth);
            lemma_files_add(holds(e.path), rest, holds, depth);
        } else if !e.is_dir && is_java_file(e.path) {
            let now = FileSearchView { pending: rest, files: search.files.push(e.path) };
            law_search_finds_the_java_files_in_order(now, holds, depth);
            assert(search.files.push(e.path) + tail =~= search.files + (seq![e.path] + tail));
        } else {
            let now = FileSearchView { pending: rest, ..search };
            law_search_finds_the_java_files_in_order(now, holds, depth);
            assert(Seq::<Seq<char>>::empty() + tail =~= tail);
        }
    }
}

proof fn lemma_files_depth(
    entries: Seq<EntryView>,
    holds: spec_fn(Seq<char>) -> Seq<EntryView>,
    small: nat,
    large: nat,
)
    requires
        small <= large,
        java_files(entries, holds, small) is Some,
    ensures
        java_files(entries, holds, large) == java_files(entries, holds, small),
    decreases small, entries.len(),
{
    if entries.len() > 0 {
        lemma_files_depth(entries.skip(1), holds, small, large);
        let e = entries[0];
        if e.is_dir && !is_hidden(e.path) {
            lemma_files_depth(holds(e.path), holds, (small - 1) as nat, (large - 1) as nat);
        }
    }
}

proof fn lemma_files_add(
    a: Seq<EntryView>,
    b: Seq<EntryView>,
    holds: spec_fn(Seq<char>) -> Seq<EntryView>,
    depth: nat,
)
    requires
        java_files(a, holds, depth) is Some,
        java_files(b, holds, depth) is Some,
    ensures
        java_files(a + b, holds, depth) == Some(
            java_files(a, holds, depth)->0 + java_files(b, holds, depth)->0,
        ),
    decreases a.len(),
{
    let y = java_files(b, holds, depth)->0;
    if a.len() == 0 {
        assert(a + b =~= b);
        assert(Seq::<Seq<char>>::empty() + y =~= y);
    } else {
        lemma_files_add(a.skip(1), b, holds, depth);
        assert((a + b).skip(1) =~= a.skip(1) + b);
        let x = java_files(a.skip(1), holds, depth)->0;
        let e = a[0];
        let head = if e.is_dir {
            if is_hidden(e.path) {
                Seq::empty()
            } else {
                java_files(holds(e.path), holds, (depth - 1) as nat)->0
            }
        } else if is_java_file(e.path) {
            seq![e.path]
        } else {
            Seq::empty()
        };
        assert(head + (x + y) =~= (head + x) + y);
    }
}

// ---------------------------------------------------------------------------
// Indexing
// ---------------------------------------------------------------------------

/// The symbols of a source file.
pub open spec fn file_symbols(path: Seq<char>, source: Seq<char>) -> Seq<SymbolView> {
    document_symbols(java_nodes(source), source, uri_of_path(path))
}

/// What overrides make of symbols: by its name, a symbol is left out, replaced,
/// or kept.
pub open spec fn overridden(
    symbols: Seq<SymbolView>,
    overrides: Map<Seq<char>, Option<SymbolView>>,
) -> Seq<SymbolView>
    decreases symbols.len(),
{
    if symbols.len() == 0 {
        Seq::empty()
    } else {
        let before = overridden(symbols.drop_last(), overrides);
        let s = symbols.last();
        if overrides.contains_key(s.name) {
            match overrides[s.name] {
                Some(redirect) => before.push(redirect),
                None => before,
            }
        } else {
            before.push(s)
        }
    }
}

/// What a source file read from disk is indexed with; `None` where its path is
/// too long for a URI.
pub open spec fn scanned(path: Seq<char>, symbols: Seq<SymbolView>) -> Option<UpdateView> {
    if encode_utf8(uri_of_path(path)).len() > max_uri_len() {
        None
    } else {
        Some(
            UpdateView {
                uri: uri_of_path(path),
                generation: SCANNED_FROM_DISK,
                version: 0,
                symbols,
            },
        )
    }
}

pub open spec fn update_view(update: Option<FileUpdate>) -> Option<UpdateView> {
    match update {
        Some(u) => Some(u@),
        None => None,
    }
}

/// What a source file read from disk is indexed with.
pub fn index_source_file(path: &str, source: &str) -> (r: Option<FileUpdate>)
    ensures
        update_view(r) == scanned(path@, file_symbols(path@, source@)),
{
    match path_to_uri(path) {
        Some(uri) => {
            let tree = SyntaxTree::parse(source);
            let symbols = extract_symbols(&uri, tree.source(), tree.tree());
            Some(FileUpdate { uri, generation: SCANNED_FROM_DISK, version: 0, symbols })
        },
        None => None,
    }
}

fn apply_overrides(
    symbols: &Vec<SymbolInfo>,
    overrides: &Overrides,
) -> (r: Vec<SymbolInfo>)
    ensures
        symbol_views(r@) == overridden(symbol_views(symbols@), override_views(overrides@)),
{
    let ghost views = symbol_views(symbols@);
    let ghost map = override_views(overrides@);
    let mut out: Vec<SymbolInfo> = Vec::new();
    let mut i: usize = 0;
    assert(views.take(0) =~= Seq::empty());
    assert(symbol_views(out@) =~= Seq::empty());
    while i < symbols.len()
        invariant
            i <= symbols.len(),
            views == symbol_views(symbols@),
            map == override_views(overrides@),
            symbol_views(out@) == overridden(views.take(i as int), map),
        decreases symbols.len() - i,
    {
        let ghost before = out@;
        proof {
            assert(views.take(i + 1).drop_last() =~= views.take(i as int));
            assert(views.take(i + 1).last() == symbols@[i as int]@);
        }
        let symbol = &symbols[i];
        match overrides.get(symbol.name.as_str()) {
            None => {
                out.push(symbol.clone());
                assert(symbol_views(out@) =~= symbol_views(before).push(symbol@));
            },
            Some(Some(redirect)) => {
                out.push(redirect.clone());
                assert(symbol_views(out@) =~= symbol_views(before).push(redirect@));
            },
            Some(None) => {},
        }
        i += 1;
    }
    assert(views.take(i as int) =~= views);
    out
}

/// What a source file read from disk is indexed with, with overrides applied to
/// its symbols: by its name, a symbol is left out (`None`) or replaced (`Some`).
pub fn index_source_file_with_overrides(path: &str, source: &str, overrides: &Overrides) -> (r:
    Option<FileUpdate>)
    ensures
        update_view(r) == scanned(
            path@,
            overridden(file_symbols(path@, source@), override_views(overrides@)),
        ),
{
    match path_to_uri(path) {
        Some(uri) => {
            let tree = SyntaxTree::parse(source);
            let found = extract_symbols(&uri, tree.source(), tree.tree());
            let symbols = apply_overrides(&found, overrides);
            Some(FileUpdate { uri, generation: SCANNED_FROM_DISK, version: 0, symbols })
        },
        None => None,
    }
}

/// Overrides leave out the symbols that they exclude, put others in the place of
/// those that they redirect, and leave the rest as they are.
pub proof fn law_overrides_replace_symbols_by_name(
    symbols: Seq<SymbolView>,
    overrides: Map<Seq<char>, Option<SymbolView>>,
    symbol: SymbolView,
)
    ensures
        overridden(symbols.push(symbol), overrides) == overridden(symbols, overrides) + (
        if !overrides.contains_key(symbol.name) {
            seq![symbol]
        } else {
            match overrides[symbol.name] {
                Some(redirect) => seq![redirect],
                None => Seq::empty(),
            }
        }),
        overridden(Seq::empty(), overrides).len() == 0,
{
    assert(symbols.push(symbol).drop_last() =~= symbols);
    let before = overridden(symbols, overrides);
    assert(before + seq![symbol] =~= before.push(symbol));
    assert(before + Seq::empty() =~= before);
    if overrides.contains_key(symbol.name) && overrides[symbol.name] is Some {
        let redirect = overrides[symbol.name]->0;
        assert(before + seq![redirect] =~= before.push(redirect));
    }
}

/// What is read from disk is indexed under the file's URI, in the generation
/// that every session outranks.
pub proof fn law_what_is_scanned_is_outranked_by_every_session(
    path: Seq<char>,
    symbols: Seq<SymbolView>,
)
    ensures
        match scanned(path, symbols) {
            Some(update) => update.uri == uri_of_path(path) && update.generation == 0
                && update.symbols == symbols,
            None => encode_utf8(uri_of_path(path)).len() > 0x7FFF_FFFF,
        },
{
}

/// A file is a Java file by its extension alone, and a directory is hidden by
/// the dot that its name starts with.
pub proof fn law_java_files_are_known_by_their_extension(dir: Seq<char>, name: Seq<char>)
    requires
        name.len() > 0,
        !name.contains('/') && !name.contains('.'),
    ensures
        is_java_file(joined_path(dir, name + ".java"@)),
        !is_java_file(joined_path(dir, name)),
        !is_java_file(joined_path(dir, name + ".class"@)),
        !is_hidden(joined_path(dir, name)),
        is_hidden(joined_path(dir, seq!['.'] + name)),
{
    reveal_strlit(".java");
    reveal_strlit(".class");
    reveal_strlit("java");
    reveal_strlit("class");
    reveal_strlit(".");
    reveal_strlit("..");
    assert forall|k: int| 0 <= k < name.len() implies name[k] != '/' && name[k] != '.' by {
        assert(name.contains(name[k]));
    }
    let java = name + ".java"@;
    let class = name + ".class"@;
    let dotted = seq!['.'] + name;
    assert(java[0] == name[0] && class[0] == name[0]);
    lemma_is_name(java);
    lemma_is_name(class);
    lemma_is_name(name);
    assert(dotted[1] == name[0]);
    lemma_is_name(dotted);
    law_a_name_below_a_path_is_one_part_more(dir, java);
    law_a_name_below_a_path_is_one_part_more(dir, class);
    law_a_name_below_a_path_is_one_part_more(dir, name);
    law_a_name_below_a_path_is_one_part_more(dir, dotted);
    let n = name.len() as int;
    assert forall|k: int| n < k < java.len() implies java[k] != '.' by {}
    assert(java[n] == '.');
    lemma_is_last_index(java, '.', n);
    assert(java.skip(n + 1) =~= "java"@);
    assert(class[n] == '.');
    assert forall|k: int| n < k < class.len() implies class[k] != '.' by {}
    lemma_is_last_index(class, '.', n);
    assert(class.skip(n + 1) =~= "class"@);
    assert("java"@.len() != "class"@.len());
    lemma_is_last_index(name, '.', -1);
}

proof fn lemma_is_name(name: Seq<char>)
    requires
        name.len() > 0,
        forall|k: int| 0 <= k < name.len() ==> name[k] != '/',
        exists|k: int| 0 <= k < name.len() && name[k] != '.',
    ensures
        is_part(name),
        name != ".."@,
        !name.contains('/'),
{
    reveal_strlit(".");
    reveal_strlit("..");
    let k = choose|k: int| 0 <= k < name.len() && name[k] != '.';
    if name == "."@ {
        assert("."@[k] == '.');
    }
    if name == ".."@ {
        assert(".."@[k] == '.');
    }
}

} // verus!
