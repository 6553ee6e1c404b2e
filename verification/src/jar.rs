//! Reads `.class` entries out of a jar (a zip archive). Delegates the zip
//! container format and DEFLATE decompression to the `zip` crate: unlike
//! classfile parsing, that's a non-trivial, correctness-sensitive algorithm
//! worth depending on rather than hand-rolling.

use crate::text::{same_text, to_chars};
use vstd::prelude::*;
use vstd::string::*;

verus! {

// ---------------------------------------------------------------------------
// Archives
// ---------------------------------------------------------------------------

/// std's cursor over bytes, which an archive is read from.
#[verifier::external_type_specification]
#[verifier::external_body]
#[verifier::reject_recursive_types(T)]
pub struct ExCursor<T>(std::io::Cursor<T>);

/// The `zip` crate's archive.
#[verifier::external_type_specification]
#[verifier::external_body]
#[verifier::reject_recursive_types(R)]
pub struct ExZipArchive<R>(zip::ZipArchive<R>);

/// An entry of an archive: what kept it from being opened, or its name, whether
/// it is a directory, and its bytes or what kept them from being read.
pub enum EntryView {
    Unopened(Seq<char>),
    Opened { name: Seq<char>, is_dir: bool, content: Result<Seq<u8>, Seq<char>> },
}

/// The entries that an archive holds, in their order.
pub uninterp spec fn archive_entries(
    archive: zip::ZipArchive<std::io::Cursor<Vec<u8>>>,
) -> Seq<EntryView>;

/// The entries of the archive that bytes are, or why they are none.
pub uninterp spec fn zip_entries(bytes: Seq<u8>) -> Result<Seq<EntryView>, Seq<char>>;

/// `zip::ZipArchive::new` over the bytes: the archive, or the error in words,
/// depends on the bytes alone.
#[verifier::external_body]
fn open_archive(bytes: Vec<u8>) -> (r: Result<
    zip::ZipArchive<std::io::Cursor<Vec<u8>>>,
    String,
>)
    ensures
        match r {
            Ok(archive) => zip_entries(bytes@) == Ok::<Seq<EntryView>, Seq<char>>(
                archive_entries(archive),
            ),
            Err(e) => zip_entries(bytes@) == Err::<Seq<EntryView>, Seq<char>>(e@),
        },
{
    zip::ZipArchive::new(std::io::Cursor::new(bytes)).map_err(|err| err.to_string())
}

/// `zip::ZipArchive::len`: the number of entries.
#[verifier::external_body]
fn entry_count(archive: &zip::ZipArchive<std::io::Cursor<Vec<u8>>>) -> (r: usize)
    ensures
        r == archive_entries(*archive).len(),
{
    archive.len()
}

/// `zip::ZipArchive::by_index`, then the entry's `name` and `is_dir`; the
/// archive keeps its entries.
#[verifier::external_body]
fn entry_header(
    archive: &mut zip::ZipArchive<std::io::Cursor<Vec<u8>>>,
    index: usize,
) -> (r: Result<(String, bool), String>)
    requires
        index < archive_entries(*old(archive)).len(),
    ensures
        archive_entries(*final(archive)) == archive_entries(*old(archive)),
        match (r, archive_entries(*old(archive))[index as int]) {
            (Ok((name, dir)), EntryView::Opened { name: n, is_dir: d, content: _ }) => name@ == n
                && dir == d,
            (Err(e), EntryView::Unopened(text)) => e@ == text,
            _ => false,
        },
{
    let entry = archive.by_index(index).map_err(|err| err.to_string())?;
    Ok((entry.name().to_owned(), entry.is_dir()))
}

/// `zip::ZipArchive::by_index`, then `std::io::Read::read_to_end` of the entry:
/// its bytes, or the error in words; the archive keeps its entries.
#[verifier::external_body]
fn entry_bytes(
    archive: &mut zip::ZipArchive<std::io::Cursor<Vec<u8>>>,
    index: usize,
) -> (r: Result<Vec<u8>, String>)
    requires
        index < archive_entries(*old(archive)).len(),
    ensures
        archive_entries(*final(archive)) == archive_entries(*old(archive)),
        match archive_entries(*old(archive))[index as int] {
            EntryView::Opened { name: _, is_dir: _, content } => match r {
                Ok(bytes) => content == Ok::<Seq<u8>, Seq<char>>(bytes@),
                Err(e) => content == Err::<Seq<u8>, Seq<char>>(e@),
            },
            EntryView::Unopened(text) => r is Err && r->Err_0@ == text,
        },
{
    let mut bytes = Vec::new();
    let mut entry = archive.by_index(index).map_err(|err| err.to_string())?;
    std::io::Read::read_to_end(&mut entry, &mut bytes).map_err(|err| err.to_string())?;
    Ok(bytes)
}

/// A text as std shows it to a programmer.
pub uninterp spec fn debug_text(s: Seq<char>) -> Seq<char>;

/// std's `Debug` of a string, by `format!`: in quotation marks, with escapes.
/// The text depends on the string alone; which characters are escaped is left
/// unspoken.
#[verifier::external_body]
fn debug(s: &str) -> (r: String)
    ensures
        r@ == debug_text(s@),
{
    format!("{s:?}")
}

// ---------------------------------------------------------------------------
// Class entries
// ---------------------------------------------------------------------------

/// An entry of a jar, as far as it could be read.
#[derive(Debug, PartialEq, Eq)]
pub enum JarEntry {
    Unopened(String),
    Opened { name: String, is_dir: bool, content: Result<Vec<u8>, String> },
}

impl View for JarEntry {
    type V = EntryView;

    open spec fn view(&self) -> EntryView {
        match self {
            JarEntry::Unopened(cause) => EntryView::Unopened(cause@),
            JarEntry::Opened { name, is_dir, content } => EntryView::Opened {
                name: name@,
                is_dir: *is_dir,
                content: match content {
                    Ok(bytes) => Ok(bytes@),
                    Err(cause) => Err(cause@),
                },
            },
        }
    }
}

/// Why the classes of a jar could not be read: the jar, the entry where one was
/// at fault, and the cause.
#[derive(Debug)]
pub struct JarError {
    pub jar: String,
    pub entry: Option<String>,
    pub cause: String,
}

/// What a [`JarError`] says, as mathematical values.
pub struct JarErrorView {
    pub jar: Seq<char>,
    pub entry: Option<Seq<char>>,
    pub cause: Seq<char>,
}

impl View for JarError {
    type V = JarErrorView;

    open spec fn view(&self) -> JarErrorView {
        JarErrorView {
            jar: self.jar@,
            entry: crate::text::opt_text(self.entry),
            cause: self.cause@,
        }
    }
}

impl JarError {
    /// The error in words.
    pub open spec fn text(error: JarErrorView) -> Seq<char> {
        debug_text(error.jar) + ": "@ + (match error.entry {
            Some(name) => name + ": "@,
            None => ""@,
        }) + error.cause
    }

    /// The error in words: the jar, in quotation marks, the entry if one was at
    /// fault, the cause.
    pub fn message(&self) -> (r: String)
        ensures
            r@ == JarError::text(self@),
    {
        let mut out = debug(self.jar.as_str());
        out.append(": ");
        match &self.entry {
            Some(name) => {
                out.append(name.as_str());
                out.append(": ");
            },
            None => {
                out.append("");
            },
        }
        out.append(self.cause.as_str());
        assert(out@ =~= JarError::text(self@));
        out
    }
}

/// Whether an entry is a class: a file whose name ends in `.class`, but for the
/// description of the module itself.
pub open spec fn is_class_entry(name: Seq<char>, is_dir: bool) -> bool {
    !is_dir && ".class"@.is_suffix_of(name) && name != "module-info.class"@
}

/// The classes of a jar with one more entry, or the error that the entry gives:
/// that it cannot be opened, or that it is a class whose bytes cannot be read.
pub open spec fn with_entry(
    jar: Seq<char>,
    before: Seq<(Seq<char>, Seq<u8>)>,
    entry: EntryView,
) -> Result<Seq<(Seq<char>, Seq<u8>)>, JarErrorView> {
    match entry {
        EntryView::Unopened(cause) => Err(JarErrorView { jar, entry: None, cause }),
        EntryView::Opened { name, is_dir, content } => if is_class_entry(name, is_dir) {
            match content {
                Ok(bytes) => Ok(before.push((name, bytes))),
                Err(cause) => Err(JarErrorView { jar, entry: Some(name), cause }),
            }
        } else {
            Ok(before)
        },
    }
}

/// The classes among the first `n` entries, by name and bytes, or the first
/// error that an entry gives.
pub open spec fn classes_upto(jar: Seq<char>, entries: Seq<EntryView>, n: int) -> Result<
    Seq<(Seq<char>, Seq<u8>)>,
    JarErrorView,
>
    decreases n,
{
    if n <= 0 {
        Ok(Seq::empty())
    } else {
        match classes_upto(jar, entries, n - 1) {
            Err(e) => Err(e),
            Ok(before) => with_entry(jar, before, entries[n - 1]),
        }
    }
}

/// The classes of a jar, or why they cannot be read.
pub open spec fn classes_of(
    jar: Seq<char>,
    entries: Result<Seq<EntryView>, Seq<char>>,
) -> Result<Seq<(Seq<char>, Seq<u8>)>, JarErrorView> {
    match entries {
        Err(cause) => Err(JarErrorView { jar, entry: None, cause }),
        Ok(list) => classes_upto(jar, list, list.len() as int),
    }
}

/// The names and bytes of a list, as mathematical values.
pub open spec fn class_views(list: Seq<(String, Vec<u8>)>) -> Seq<(Seq<char>, Seq<u8>)> {
    list.map_values(|c: (String, Vec<u8>)| (c.0@, c.1@))
}

/// Whether an entry is a class.
pub fn names_class(name: &str, is_dir: bool) -> (r: bool)
    ensures
        r == is_class_entry(name@, is_dir),
{
    if is_dir || same_text(name, "module-info.class") {
        return false;
    }
    let chars = to_chars(name);
    let wanted = to_chars(".class");
    if wanted.len() > chars.len() {
        return false;
    }
    let from: usize = chars.len() - wanted.len();
    let mut i: usize = 0;
    while i < wanted.len()
        invariant
            i <= wanted.len(),
            from + wanted.len() == chars.len(),
            chars@ == name@,
            wanted@ == ".class"@,
            forall|k: int| 0 <= k < i ==> chars@[from + k] == wanted@[k],
        decreases wanted.len() - i,
    {
        if chars[from + i] != wanted[i] {
            proof {
                if ".class"@.is_suffix_of(name@) {
                    let tail = name@.subrange(from as int, name@.len() as int);
                    assert(tail[i as int] == name@[from + i]);
                    assert(".class"@ == tail);
                }
            }
            return false;
        }
        i += 1;
    }
    proof {
        assert(name@.subrange(from as int, name@.len() as int) =~= ".class"@);
    }
    true
}

/// Adds an entry to the classes of a jar if it is one.
pub fn take_entry(jar: &str, list: &mut Vec<(String, Vec<u8>)>, entry: JarEntry) -> (r: Result<
    (),
    JarError,
>)
    ensures
        match r {
            Ok(_) => with_entry(jar@, class_views(old(list)@), entry@) == Ok::<
                Seq<(Seq<char>, Seq<u8>)>,
                JarErrorView,
            >(class_views(final(list)@)),
            Err(e) => with_entry(jar@, class_views(old(list)@), entry@) == Err::<
                Seq<(Seq<char>, Seq<u8>)>,
                JarErrorView,
            >(e@) && *final(list) == *old(list),
        },
{
    match entry {
        JarEntry::Unopened(cause) => Err(JarError { jar: jar.to_owned(), entry: None, cause }),
        JarEntry::Opened { name, is_dir, content } => {
            if names_class(name.as_str(), is_dir) {
                match content {
                    Err(cause) => {
                        return Err(JarError { jar: jar.to_owned(), entry: Some(name), cause });
                    },
                    Ok(bytes) => {
                        list.push((name, bytes));
                        assert(class_views(list@) =~= class_views(old(list)@).push(
                            (name@, bytes@),
                        ));
                    },
                }
            }
            Ok(())
        },
    }
}

/// Every non-directory `.class` entry of a jar with these bytes, as
/// `(entry_name, bytes)` pairs. Skips `module-info.class`, which describes the
/// module itself rather than a resolvable type.
pub fn class_entries(jar: &str, bytes: Vec<u8>) -> (r: Result<Vec<(String, Vec<u8>)>, JarError>)
    ensures
        match r {
            Ok(list) => classes_of(jar@, zip_entries(bytes@)) == Ok::<
                Seq<(Seq<char>, Seq<u8>)>,
                JarErrorView,
            >(class_views(list@)),
            Err(e) => classes_of(jar@, zip_entries(bytes@)) == Err::<
                Seq<(Seq<char>, Seq<u8>)>,
                JarErrorView,
            >(e@),
        },
{
    let ghost opened = zip_entries(bytes@);
    let mut archive = match open_archive(bytes) {
        Ok(archive) => archive,
        Err(cause) => {
            return Err(JarError { jar: jar.to_owned(), entry: None, cause });
        },
    };
    let ghost entries = archive_entries(archive);
    let count: usize = entry_count(&archive);
    let mut list: Vec<(String, Vec<u8>)> = Vec::new();
    let mut i: usize = 0;
    assert(class_views(list@) =~= Seq::empty());
    while i < count
        invariant
            i <= count,
            count == entries.len(),
            archive_entries(archive) == entries,
            opened == Ok::<Seq<EntryView>, Seq<char>>(entries),
            opened == zip_entries(bytes@),
            classes_upto(jar@, entries, i as int) == Ok::<
                Seq<(Seq<char>, Seq<u8>)>,
                JarErrorView,
            >(class_views(list@)),
        decreases count - i,
    {
        let header = entry_header(&mut archive, i);
        let entry = match header {
            Err(cause) => JarEntry::Unopened(cause),
            Ok((name, is_dir)) => {
                // Only the classes are worth decompressing.
                let content = if names_class(name.as_str(), is_dir) {
                    entry_bytes(&mut archive, i)
                } else {
                    Ok(Vec::new())
                };
                JarEntry::Opened { name, is_dir, content }
            },
        };
        let ghost before = class_views(list@);
        assert(with_entry(jar@, before, entry@) == with_entry(jar@, before, entries[i as int]));
        match take_entry(jar, &mut list, entry) {
            Ok(_) => {},
            Err(error) => {
                proof {
                    lemma_first_error(jar@, entries, i + 1, count as int, error@);
                }
                return Err(error);
            },
        }
        i += 1;
    }
    Ok(list)
}

proof fn lemma_first_error(
    jar: Seq<char>,
    entries: Seq<EntryView>,
    at: int,
    n: int,
    error: JarErrorView,
)
    requires
        0 <= at <= n,
        classes_upto(jar, entries, at) == Err::<Seq<(Seq<char>, Seq<u8>)>, JarErrorView>(error),
    ensures
        classes_upto(jar, entries, n) == Err::<Seq<(Seq<char>, Seq<u8>)>, JarErrorView>(error),
    decreases n - at,
{
    if at < n {
        lemma_first_error(jar, entries, at, n - 1, error);
    }
}

/// What is read of a jar are classes: no directory, no other file, and no
/// description of the module itself.
pub proof fn law_only_classes_are_read(jar: Seq<char>, entries: Seq<EntryView>, n: int)
    requires
        0 <= n <= entries.len(),
        classes_upto(jar, entries, n) is Ok,
    ensures
        forall|i: int|
            0 <= i < classes_upto(jar, entries, n)->Ok_0.len() ==> is_class_entry(
                (#[trigger] classes_upto(jar, entries, n)->Ok_0[i]).0,
                false,
            ),
    decreases n,
{
    if n > 0 {
        law_only_classes_are_read(jar, entries, n - 1);
    }
}

/// Of the entries of a jar a file whose name ends in `.class` is a class, with
/// its bytes, but for the description of the module; a directory and any other
/// file are left out, whatever is wrong with their bytes. An entry that cannot
/// be opened and a class that cannot be read are errors.
pub proof fn law_classes_are_files_that_end_in_class(
    jar: Seq<char>,
    before: Seq<(Seq<char>, Seq<u8>)>,
    name: Seq<char>,
    content: Result<Seq<u8>, Seq<char>>,
    cause: Seq<char>,
)
    ensures
        ({
            let is_class = ".class"@.is_suffix_of(name) && name != "module-info.class"@;
            let file = with_entry(
                jar,
                before,
                EntryView::Opened { name, is_dir: false, content },
            );
            &&& is_class && content is Ok ==> file == Ok::<
                Seq<(Seq<char>, Seq<u8>)>,
                JarErrorView,
            >(before.push((name, content->Ok_0)))
            &&& is_class && content is Err ==> file is Err && file->Err_0.jar == jar
                && file->Err_0.entry == Some(name) && file->Err_0.cause == content->Err_0
            &&& !is_class ==> file == Ok::<Seq<(Seq<char>, Seq<u8>)>, JarErrorView>(before)
        }),
        with_entry(jar, before, EntryView::Opened { name, is_dir: true, content }) == Ok::<
            Seq<(Seq<char>, Seq<u8>)>,
            JarErrorView,
        >(before),
        ({
            let r = with_entry(jar, before, EntryView::Unopened(cause));
            r is Err && r->Err_0.jar == jar && r->Err_0.entry is None && r->Err_0.cause == cause
        }),
{
}

/// What is read of a jar follows its entries in their order, up to the first
/// error.
pub proof fn law_entries_are_read_in_their_order(
    jar: Seq<char>,
    entries: Seq<EntryView>,
    entry: EntryView,
)
    ensures
        classes_of(jar, Ok(entries.push(entry))) == match classes_of(jar, Ok(entries)) {
            Ok(before) => with_entry(jar, before, entry),
            Err(e) => Err(e),
        },
        classes_of(jar, Ok(Seq::empty())) == Ok::<Seq<(Seq<char>, Seq<u8>)>, JarErrorView>(
            Seq::empty(),
        ),
{
    lemma_entries_upto(jar, entries, entry, entries.len() as int);
}

proof fn lemma_entries_upto(jar: Seq<char>, entries: Seq<EntryView>, entry: EntryView, n: int)
    requires
        0 <= n <= entries.len(),
    ensures
        classes_upto(jar, entries.push(entry), n) == classes_upto(jar, entries, n),
    decreases n,
{
    if n > 0 {
        lemma_entries_upto(jar, entries, entry, n - 1);
        assert(entries.push(entry)[n - 1] == entries[n - 1]);
    }
}

} // verus!
