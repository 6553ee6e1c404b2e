//! Locates the JDK whose classes should be indexed. One JDK for the whole
//! server process.

use crate::path::{join_path, joined_path, parent, parent_of};
use crate::text::{
    after_prefix, decimal, digits_value, from_range, hex16, hex16_text, is_ascii_digit,
    lemma_decimal_value, lines, lines_of, opt_text, parse_unsigned, strip_prefix, texts, to_chars,
    to_decimal, unsigned_value,
};
use std::collections::hash_map::DefaultHasher;
use std::hash::Hasher;
use vstd::prelude::*;
use vstd::std_specs::hash::DefaultHasherAdditionalSpecFns;
use vstd::string::*;
use vstd::utf8::encode_utf8;

verus! {

#[derive(Debug, Clone, PartialEq, Eq)]
pub struct JdkHome {
    pub path: String,
    pub major_version: Option<u32>,
}

// ---------------------------------------------------------------------------
// Versions
// ---------------------------------------------------------------------------

/// The number of digits that a text starts with.
pub open spec fn leading_digits(s: Seq<char>) -> int
    decreases s.len(),
{
    if s.len() > 0 && is_ascii_digit(s[0]) {
        1 + leading_digits(s.skip(1))
    } else {
        0
    }
}

/// The major version of a JDK version: its first number, behind a `1.` that it
/// starts with.
pub open spec fn major_version(version: Seq<char>) -> Option<nat> {
    let rest = match after_prefix(version, "1."@) {
        Some(rest) => rest,
        None => version,
    };
    unsigned_value(rest.take(leading_digits(rest)), u32::MAX as nat)
}

/// A text without the quotes around it.
pub open spec fn unquoted_start(s: Seq<char>) -> Seq<char>
    decreases s.len(),
{
    if s.len() > 0 && s[0] == '"' {
        unquoted_start(s.skip(1))
    } else {
        s
    }
}

/// A text without the quotes at its end.
pub open spec fn unquoted_end(s: Seq<char>) -> Seq<char>
    decreases s.len(),
{
    if s.len() > 0 && s.last() == '"' {
        unquoted_end(s.drop_last())
    } else {
        s
    }
}

/// The value of the first line that gives the version.
pub open spec fn version_line(lines: Seq<Seq<char>>) -> Option<Seq<char>>
    decreases lines.len(),
{
    if lines.len() == 0 {
        None
    } else {
        match after_prefix(lines[0], "JAVA_VERSION="@) {
            Some(value) => Some(value),
            None => version_line(lines.skip(1)),
        }
    }
}

/// The major version that a JDK's release file gives.
pub open spec fn release_version(content: Seq<char>) -> Option<nat> {
    match version_line(lines_of(content)) {
        Some(value) => major_version(unquoted_end(unquoted_start(value))),
        None => None,
    }
}

pub open spec fn opt_nat(n: Option<u32>) -> Option<nat> {
    match n {
        Some(n) => Some(n as nat),
        None => None,
    }
}

/// Extracts the major version from a JDK version string, handling both the
/// modern scheme (`"21.0.11"` -> 21) and the pre-JDK-9 `"1.x"` scheme
/// (`"1.8.0_292"` -> 8).
pub fn parse_java_version(value: &str) -> (r: Option<u32>)
    ensures
        opt_nat(r) == major_version(value@),
{
    let rest = match strip_prefix(value, "1.") {
        Some(rest) => rest,
        None => value.to_owned(),
    };
    let chars = to_chars(rest.as_str());
    let mut end: usize = 0;
    assert(chars@.skip(0) =~= chars@);
    while end < chars.len() && '0' <= chars[end] && chars[end] <= '9'
        invariant
            end <= chars@.len(),
            leading_digits(chars@) == end + leading_digits(chars@.skip(end as int)),
        decreases chars@.len() - end,
    {
        assert(chars@.skip(end as int)[0] == chars@[end as int]);
        assert(chars@.skip(end as int).skip(1) =~= chars@.skip(end + 1));
        end += 1;
    }
    proof {
        if end < chars@.len() {
            assert(chars@.skip(end as int)[0] == chars@[end as int]);
        }
        assert(leading_digits(chars@) == end);
        assert(chars@.subrange(0, end as int) =~= chars@.take(end as int));
    }
    let digits = from_range(&chars, 0, end);
    match parse_unsigned(digits.as_str(), u32::MAX as u64) {
        Some(n) => Some(n as u32),
        None => None,
    }
}

fn unquote(s: &str) -> (r: String)
    ensures
        r@ == unquoted_end(unquoted_start(s@)),
{
    let chars = to_chars(s);
    let len: usize = chars.len();
    let mut lo: usize = 0;
    assert(chars@.skip(0) =~= s@);
    while lo < len && chars[lo] == '"'
        invariant
            lo <= len,
            len == chars@.len(),
            unquoted_start(s@) == unquoted_start(chars@.skip(lo as int)),
        decreases len - lo,
    {
        assert(chars@.skip(lo as int)[0] == chars@[lo as int]);
        assert(chars@.skip(lo as int).skip(1) =~= chars@.skip(lo + 1));
        lo += 1;
    }
    let ghost rest = chars@.skip(lo as int);
    proof {
        if lo < len {
            assert(rest[0] == chars@[lo as int]);
        }
        assert(unquoted_start(s@) == rest);
        assert(rest =~= chars@.subrange(lo as int, len as int));
    }
    let mut hi: usize = len;
    while hi > lo && chars[hi - 1] == '"'
        invariant
            lo <= hi <= len,
            len == chars@.len(),
            unquoted_end(rest) == unquoted_end(chars@.subrange(lo as int, hi as int)),
        decreases hi,
    {
        assert(chars@.subrange(lo as int, hi as int).last() == chars@[hi - 1]);
        assert(chars@.subrange(lo as int, hi as int).drop_last() =~= chars@.subrange(
            lo as int,
            hi - 1,
        ));
        hi -= 1;
    }
    proof {
        if hi > lo {
            assert(chars@.subrange(lo as int, hi as int).last() == chars@[hi - 1]);
        }
    }
    from_range(&chars, lo, hi)
}

/// The major version that a JDK's release file gives.
pub fn read_major_version(release: &str) -> (r: Option<u32>)
    ensures
        opt_nat(r) == release_version(release@),
{
    let all = lines(release);
    let ghost views = texts(all@);
    let mut i: usize = 0;
    assert(views.skip(0) =~= views);
    while i < all.len()
        invariant
            i <= all.len(),
            views == texts(all@),
            views == lines_of(release@),
            version_line(views) == version_line(views.skip(i as int)),
        decreases all.len() - i,
    {
        assert(views.skip(i as int)[0] == all@[i as int]@);
        assert(views.skip(i as int).skip(1) =~= views.skip(i + 1));
        if let Some(value) = strip_prefix(all[i].as_str(), "JAVA_VERSION=") {
            return parse_java_version(unquote(value.as_str()).as_str());
        }
        i += 1;
    }
    None
}

// ---------------------------------------------------------------------------
// Locating
// ---------------------------------------------------------------------------

pub open spec fn grandparent_of(path: Seq<char>) -> Option<Seq<char>> {
    match parent_of(path) {
        Some(dir) => parent_of(dir),
        None => None,
    }
}

/// The home of the first executable found: the grandparent of the first that
/// has one.
pub open spec fn home_on_path(found: Seq<Option<Seq<char>>>) -> Option<Seq<char>>
    decreases found.len(),
{
    if found.len() == 0 {
        None
    } else if found[0] is Some && grandparent_of(found[0]->0) is Some {
        grandparent_of(found[0]->0)
    } else {
        home_on_path(found.skip(1))
    }
}

/// The home: `JAVA_HOME` where it looks like one, else by the search path.
pub open spec fn chosen_home(
    java_home: Option<Seq<char>>,
    valid: bool,
    found: Seq<Option<Seq<char>>>,
) -> Option<Seq<char>> {
    if java_home is Some && valid {
        java_home
    } else {
        home_on_path(found)
    }
}

/// The optional texts of a list.
pub open spec fn opt_texts(list: Seq<Option<String>>) -> Seq<Option<Seq<char>>> {
    list.map_values(|s: Option<String>| opt_text(s))
}

pub fn java_executable_name(windows: bool) -> (r: &'static str)
    ensures
        r@ == if windows {
            "java.exe"@
        } else {
            "java"@
        },
{
    if windows {
        "java.exe"
    } else {
        "java"
    }
}

/// The file that a directory holds where it is a JDK's home.
pub fn java_executable(home: &str, windows: bool) -> (r: String)
    ensures
        r@ == joined_path(
            joined_path(home@, "bin"@),
            if windows {
                "java.exe"@
            } else {
                "java"@
            },
        ),
{
    join_path(join_path(home, "bin").as_str(), java_executable_name(windows))
}

/// Takes `JAVA_HOME` where it is set and holds a `java` executable
/// (`java_home_is_valid`), and otherwise the grandparent of the first `java`
/// that the search path leads to: `found` gives, for each directory of the
/// search path, the canonical path of the executable there, or nothing.
/// Canonical, because on many systems the search path finds `java` in a generic
/// directory (`/usr/bin`) that merely links into the real JDK.
pub fn locate_with(
    java_home: Option<String>,
    java_home_is_valid: bool,
    found: &Vec<Option<String>>,
) -> (r: Option<String>)
    ensures
        opt_text(r) == chosen_home(opt_text(java_home), java_home_is_valid, opt_texts(found@)),
{
    let ghost given = opt_text(java_home);
    if java_home_is_valid {
        if let Some(home) = java_home {
            return Some(home);
        }
    }
    let ghost views = opt_texts(found@);
    let mut i: usize = 0;
    assert(views.skip(0) =~= views);
    while i < found.len()
        invariant
            i <= found.len(),
            views == opt_texts(found@),
            given == opt_text(java_home),
            !(given is Some && java_home_is_valid),
            home_on_path(views) == home_on_path(views.skip(i as int)),
        decreases found.len() - i,
    {
        assert(views.skip(i as int)[0] == opt_text(found@[i as int]));
        assert(views.skip(i as int).skip(1) =~= views.skip(i + 1));
        if let Some(java) = &found[i] {
            if let Some(bin) = parent(java.as_str()) {
                if let Some(home) = parent(bin.as_str()) {
                    return Some(home);
                }
            }
        }
        i += 1;
    }
    None
}

/// The JDK at a home, with the content of its release file where it has one.
pub fn jdk_at(home: String, release: Option<&str>) -> (r: JdkHome)
    ensures
        r.path@ == home@,
        opt_nat(r.major_version) == match release {
            Some(content) => release_version(content@),
            None => None,
        },
{
    let major_version = match release {
        Some(content) => read_major_version(content),
        None => None,
    };
    JdkHome { path: home, major_version }
}

// ---------------------------------------------------------------------------
// Where the classes are
// ---------------------------------------------------------------------------

/// Where to find a JDK's classfiles: JDK 9+ stores them in `lib/modules` (a
/// custom `jimage` binary format, not a zip), so `java.base` is extracted once
/// via the JDK's own bundled `jimage` tool and cached on disk. Pre-JDK-9
/// `rt.jar` is a plain jar, read directly, no extraction needed.
#[derive(Debug, Clone, PartialEq, Eq)]
pub enum ClassSource {
    ExtractedDir(String),
    Jar(String),
}

pub enum ClassSourceView {
    ExtractedDir(Seq<char>),
    Jar(Seq<char>),
}

impl View for ClassSource {
    type V = ClassSourceView;

    open spec fn view(&self) -> ClassSourceView {
        match self {
            ClassSource::ExtractedDir(dir) => ClassSourceView::ExtractedDir(dir@),
            ClassSource::Jar(path) => ClassSourceView::Jar(path@),
        }
    }
}

/// The directory that a JDK's modules are extracted to.
pub open spec fn extraction_dir(cache_root: Seq<char>, key: Seq<char>) -> Seq<char> {
    joined_path(joined_path(cache_root, "jdk"@), key)
}

/// Where a JDK's classes are: in `rt.jar` before JDK 9 or where there is no
/// modules file, else in what was extracted of `java.base`.
pub open spec fn classes_of(
    home: Seq<char>,
    version: Option<u32>,
    has_modules_file: bool,
    cache_root: Seq<char>,
    key: Seq<char>,
) -> ClassSourceView {
    if (version is Some && version->0 < 9) || !has_modules_file {
        ClassSourceView::Jar(joined_path(joined_path(home, "lib"@), "rt.jar"@))
    } else {
        ClassSourceView::ExtractedDir(joined_path(extraction_dir(cache_root, key), "java.base"@))
    }
}

/// The file that holds a JDK's modules.
pub fn modules_file(jdk: &JdkHome) -> (r: String)
    ensures
        r@ == joined_path(joined_path(jdk.path@, "lib"@), "modules"@),
{
    join_path(join_path(jdk.path.as_str(), "lib").as_str(), "modules")
}

/// The directory that a JDK's modules are extracted to.
pub fn extraction_target(cache_root: &str, key: &str) -> (r: String)
    ensures
        r@ == extraction_dir(cache_root@, key@),
{
    join_path(join_path(cache_root, "jdk").as_str(), key)
}

/// Where a JDK's classes are, once its modules, if it has any, are extracted.
pub fn class_source(
    jdk: &JdkHome,
    cache_root: &str,
    has_modules_file: bool,
    key: &str,
) -> (r: ClassSource)
    ensures
        r@ == classes_of(jdk.path@, jdk.major_version, has_modules_file, cache_root@, key@),
{
    let old = match jdk.major_version {
        Some(version) => version < 9,
        None => false,
    };
    if old || !has_modules_file {
        return ClassSource::Jar(
            join_path(join_path(jdk.path.as_str(), "lib").as_str(), "rt.jar"),
        );
    }
    ClassSource::ExtractedDir(
        join_path(extraction_target(cache_root, key).as_str(), "java.base"),
    )
}

pub fn jimage_executable(jdk: &JdkHome, windows: bool) -> (r: String)
    ensures
        r@ == joined_path(
            joined_path(jdk.path@, "bin"@),
            if windows {
                "jimage.exe"@
            } else {
                "jimage"@
            },
        ),
{
    let name = if windows {
        "jimage.exe"
    } else {
        "jimage"
    };
    join_path(join_path(jdk.path.as_str(), "bin").as_str(), name)
}

/// What is hashed for a cache key: the path, then the time of the last change
/// where it is known, in seconds and nanoseconds.
pub open spec fn key_writes(path: Seq<char>, modified: Option<(u64, u32)>) -> Seq<Seq<u8>> {
    let head = seq![encode_utf8(path), seq![0xFFu8]];
    match modified {
        Some((seconds, nanos)) => head.push(encode_utf8(decimal(seconds as nat))).push(
            seq![0xFFu8],
        ).push(encode_utf8(decimal(nanos as nat))),
        None => head,
    }
}

/// A cache key for a JDK: non-cryptographic, since a hash collision would only
/// cause a stale cache to be reused for symbol data.
pub fn cache_key(jdk_path: &str, modified: Option<(u64, u32)>) -> (r: String)
    ensures
        r@ == hex16_text(DefaultHasher::spec_finish(key_writes(jdk_path@, modified))),
{
    let mut hasher = DefaultHasher::new();
    hasher.write(jdk_path.as_bytes());
    hasher.write(&[0xFFu8]);
    assert(hasher@[1] =~= seq![0xFFu8]);
    if let Some((seconds, nanos)) = modified {
        let s = to_decimal(seconds);
        let n = to_decimal(nanos as u64);
        hasher.write(s.as_str().as_bytes());
        hasher.write(&[0xFFu8]);
        hasher.write(n.as_str().as_bytes());
        assert(hasher@[3] =~= seq![0xFFu8]);
    }
    assert(hasher@ =~= key_writes(jdk_path@, modified));
    hex16(hasher.finish())
}

// ---------------------------------------------------------------------------
// Laws
// ---------------------------------------------------------------------------

proof fn lemma_leading_digits(digits: Seq<char>, rest: Seq<char>)
    requires
        forall|i: int| 0 <= i < digits.len() ==> is_ascii_digit(#[trigger] digits[i]),
        rest.len() > 0 ==> !is_ascii_digit(rest[0]),
    ensures
        leading_digits(digits + rest) == digits.len(),
    decreases digits.len(),
{
    let all = digits + rest;
    if digits.len() == 0 {
        assert(all =~= rest);
    } else {
        assert(all[0] == digits[0]);
        assert(is_ascii_digit(digits[0]));
        assert(all.skip(1) =~= digits.skip(1) + rest);
        lemma_leading_digits(digits.skip(1), rest);
    }
}

/// The major version of a version in the modern scheme is its first number;
/// only a number 1 before a dot is not read as one.
pub proof fn law_modern_version_is_its_first_number(n: nat, rest: Seq<char>)
    requires
        n <= u32::MAX,
        rest.len() > 0 ==> !is_ascii_digit(rest[0]),
        !(n == 1 && rest.len() > 0 && rest[0] == '.'),
    ensures
        major_version(decimal(n) + rest) == Some(n),
{
    reveal_strlit("1.");
    lemma_decimal_value(n);
    let d = decimal(n);
    let all = d + rest;
    assert(is_ascii_digit(d[0]));
    lemma_leading_digits(d, rest);
    assert(all.take(d.len() as int) =~= d);
    if "1."@.is_prefix_of(all) {
        assert(all[0] == "1."@[0] && all[1] == "1."@[1]);
        if d.len() > 1 {
            assert(all[1] == d[1]);
            assert(is_ascii_digit(d[1]));
        } else {
            assert(d[0] == '1');
            assert(d.drop_last() =~= Seq::empty());
            assert(digits_value(d.drop_last()) == Some(0nat));
            assert(d.last() == '1');
            assert(digits_value(d) == Some(1nat));
            assert(all[1] == rest[0]);
        }
    }
}

/// The major version of a version in the scheme before JDK 9 is its second
/// number.
pub proof fn law_old_version_is_its_second_number(n: nat, rest: Seq<char>)
    requires
        n <= u32::MAX,
        rest.len() > 0 ==> !is_ascii_digit(rest[0]),
    ensures
        major_version("1."@ + decimal(n) + rest) == Some(n),
{
    lemma_decimal_value(n);
    let d = decimal(n);
    let all = "1."@ + d + rest;
    assert("1."@.is_prefix_of(all));
    assert(all.skip("1."@.len() as int) =~= d + rest);
    lemma_leading_digits(d, rest);
    assert((d + rest).take(d.len() as int) =~= d);
    assert(is_ascii_digit(d[0]));
}

/// The classes of a JDK before version 9, and of one without a modules file, are
/// in its `rt.jar`; those of any other are in what was extracted of `java.base`.
pub proof fn law_old_jdks_have_a_jar(
    home: Seq<char>,
    version: Option<u32>,
    has_modules_file: bool,
    cache_root: Seq<char>,
    key: Seq<char>,
)
    requires
        home.len() > 0 && home.last() != '/',
    ensures
        classes_of(home, version, has_modules_file, cache_root, key) is Jar <==> !has_modules_file
            || (version is Some && version->0 <= 8),
        classes_of(home, version, has_modules_file, cache_root, key) is Jar ==> classes_of(
            home,
            version,
            has_modules_file,
            cache_root,
            key,
        )->Jar_0 == home + "/lib/rt.jar"@,
{
    reveal_strlit("/");
    reveal_strlit("lib");
    reveal_strlit("rt.jar");
    reveal_strlit("/lib/rt.jar");
    assert(home + "/"@ + "lib"@ + "/"@ + "rt.jar"@ =~= home + "/lib/rt.jar"@);
}

/// `JAVA_HOME` is taken where it looks like a JDK; else it is as if it were not
/// set, and the first executable on the search path that has a grandparent gives
/// the home.
pub proof fn law_java_home_comes_first(
    java_home: Seq<char>,
    found: Seq<Option<Seq<char>>>,
    i: int,
)
    ensures
        chosen_home(Some(java_home), true, found) == Some(java_home),
        chosen_home(Some(java_home), false, found) == chosen_home(None, false, found),
        chosen_home(None, true, found) == chosen_home(None, false, found),
        0 <= i < found.len() && found[i] is Some && grandparent_of(found[i]->0) is Some && (forall|
            k: int,
        |
            0 <= k < i ==> (#[trigger] found[k]) is None || grandparent_of(found[k]->0) is None)
            ==> chosen_home(None, false, found) == grandparent_of(found[i]->0),
        (forall|k: int|
            0 <= k < found.len() ==> (#[trigger] found[k]) is None || grandparent_of(
                found[k]->0,
            ) is None) ==> chosen_home(None, false, found) is None,
{
    lemma_home_on_path(found, i);
}

proof fn lemma_home_on_path(found: Seq<Option<Seq<char>>>, i: int)
    ensures
        0 <= i < found.len() && found[i] is Some && grandparent_of(found[i]->0) is Some && (forall|
            k: int,
        |
            0 <= k < i ==> (#[trigger] found[k]) is None || grandparent_of(found[k]->0) is None)
            ==> home_on_path(found) == grandparent_of(found[i]->0),
        (forall|k: int|
            0 <= k < found.len() ==> (#[trigger] found[k]) is None || grandparent_of(
                found[k]->0,
            ) is None) ==> home_on_path(found) is None,
    decreases found.len(),
{
    if found.len() > 0 {
        let rest = found.skip(1);
        lemma_home_on_path(rest, i - 1);
        assert(forall|k: int| 0 <= k < rest.len() ==> rest[k] == found[k + 1]);
        assert(found[0] == found[0]);
        if i > 0 && i < found.len() {
            assert(rest[i - 1] == found[i]);
        }
    }
}

/// The version in a release file is the one in its first version line, without
/// the quotes around it.
pub proof fn law_the_release_file_gives_the_version(value: Seq<char>, behind: Seq<Seq<char>>)
    requires
        value.len() > 0,
        value[0] != '"',
        value.last() != '"',
    ensures
        version_line(seq!["JAVA_VERSION="@ + seq!['"'] + value + seq!['"']] + behind) == Some(
            seq!['"'] + value + seq!['"'],
        ),
        unquoted_end(unquoted_start(seq!['"'] + value + seq!['"'])) == value,
        unquoted_end(unquoted_start(value)) == value,
{
    let quoted = seq!['"'] + value + seq!['"'];
    let line = "JAVA_VERSION="@ + seq!['"'] + value + seq!['"'];
    let prefix = "JAVA_VERSION="@;
    assert(line =~= prefix + quoted);
    assert(prefix.is_prefix_of(line));
    assert(line.skip(prefix.len() as int) =~= quoted);
    assert((seq![line] + behind)[0] == line);
    let inner = value + seq!['"'];
    assert(quoted.skip(1) =~= inner);
    assert(inner[0] == value[0]);
    assert(unquoted_start(inner) == inner);
    assert(unquoted_start(quoted) == inner);
    assert(inner.last() == '"');
    assert(inner.drop_last() =~= value);
    assert(unquoted_end(value) == value);
    assert(unquoted_end(inner) == unquoted_end(inner.drop_last()));
}

} // verus!
