//! How the real `javac` (with Lombok on `-processorpath`) is called to compile a
//! single Lombok-tagged source file. Lombok mutates javac's own in-memory AST
//! during compilation, so the resulting `.class` file already contains the
//! synthesized getters/setters as ordinary bytecode: no Lombok-specific
//! decoding is needed once compilation succeeds.

use crate::jdk_home::JdkHome;
use crate::path::{
    components, file_name, is_part, join_path, joined_path,
    law_a_name_below_a_path_is_one_part_more, name_of, parts,
};
use crate::project_model::{ModuleModel, ModuleView};
use crate::text::{
    contains, find_text, hex16, hex16_text, is_hex_char, join, joined, lemma_hex16_text,
    lemma_texts_push, stands_at, texts,
};
use std::collections::hash_map::DefaultHasher;
use std::hash::Hasher;
use crate::transport::lower_ascii;
use vstd::prelude::*;
use vstd::std_specs::hash::DefaultHasherAdditionalSpecFns;
use vstd::string::*;
use vstd::utf8::{encode_utf8, is_ascii_chars};

verus! {

/// A text in lower case, for the texts that are not all ASCII.
pub uninterp spec fn unicode_lowercase(s: Seq<char>) -> Seq<char>;

/// An ASCII text in lower case.
pub open spec fn ascii_lowercase(s: Seq<char>) -> Seq<char> {
    s.map_values(|c: char| crate::transport::lower_ascii(c))
}

/// A text in lower case.
pub open spec fn lowercase(s: Seq<char>) -> Seq<char> {
    if is_ascii_chars(s) {
        ascii_lowercase(s)
    } else {
        unicode_lowercase(s)
    }
}

/// `str::to_lowercase`: the text in lower case, which in ASCII maps the letters
/// `A` to `Z`; beyond ASCII the mapping is Unicode's and is left unspoken.
pub assume_specification[ str::to_lowercase ](s: &str) -> (r: String)
    ensures
        r@ == if is_ascii_chars(s@) {
            ascii_lowercase(s@)
        } else {
            unicode_lowercase(s@)
        },
;

/// Whether a path's name speaks of Lombok.
pub open spec fn is_lombok_jar(path: Seq<char>) -> bool {
    match name_of(path) {
        Some(name) => find_text(lowercase(name), "lombok"@, 0) >= 0,
        None => false,
    }
}

/// Finds a Lombok jar on an already-resolved classpath by filename.
pub fn find_lombok_jar(classpath: &Vec<String>) -> (r: Option<&String>)
    ensures
        match r {
            Some(jar) => exists|i: int|
                0 <= i < classpath@.len() && *jar == #[trigger] classpath@[i] && is_lombok_jar(
                    classpath@[i]@,
                ) && forall|j: int| 0 <= j < i ==> !is_lombok_jar(#[trigger] classpath@[j]@),
            None => forall|i: int|
                0 <= i < classpath@.len() ==> !is_lombok_jar(#[trigger] classpath@[i]@),
        },
{
    let mut i: usize = 0;
    while i < classpath.len()
        invariant
            i <= classpath.len(),
            forall|j: int| 0 <= j < i ==> !is_lombok_jar(#[trigger] classpath@[j]@),
        decreases classpath.len() - i,
    {
        if let Some(name) = file_name(classpath[i].as_str()) {
            let lower = name.as_str().to_lowercase();
            if contains(lower.as_str(), "lombok") {
                assert(is_lombok_jar(classpath@[i as int]@));
                return Some(&classpath[i]);
            }
        }
        i += 1;
    }
    None
}

/// What is hashed of a path: the bytes of each part, then one that no text
/// holds.
pub open spec fn path_writes(parts: Seq<Seq<char>>) -> Seq<Seq<u8>>
    decreases parts.len(),
{
    if parts.len() == 0 {
        Seq::empty()
    } else {
        path_writes(parts.drop_last()).push(encode_utf8(parts.last())).push(seq![0xFFu8])
    }
}

/// The hash of a path.
pub open spec fn path_hash(path: Seq<char>) -> u64 {
    DefaultHasher::spec_finish(path_writes(components(path)))
}

/// The name of a module's output directory: the hash of the module's root.
pub open spec fn output_name(module_root: Seq<char>) -> Seq<char> {
    hex16_text(path_hash(module_root))
}

/// The output directory of a module.
pub open spec fn output_dir(cache_root: Seq<char>, module_root: Seq<char>) -> Seq<char> {
    joined_path(joined_path(cache_root, "javac-output"@), output_name(module_root))
}

/// A stable, filesystem-safe output directory for a module's Lombok-driven
/// compiles, under the cache root.
pub fn output_dir_for_module(cache_root: &str, module_root: &str) -> (r: String)
    ensures
        r@ == output_dir(cache_root@, module_root@),
{
    let all = parts(module_root);
    let ghost views = texts(all@);
    let mut hasher = DefaultHasher::new();
    let mut i: usize = 0;
    assert(views.take(0) =~= Seq::empty());
    while i < all.len()
        invariant
            i <= all.len(),
            views == texts(all@),
            hasher@ == path_writes(views.take(i as int)),
        decreases all.len() - i,
    {
        let ghost before = hasher@;
        hasher.write(all[i].as_str().as_bytes());
        hasher.write(&[0xFFu8]);
        proof {
            assert(views.take(i + 1).drop_last() =~= views.take(i as int));
            assert(views.take(i + 1).last() == all@[i as int]@);
            assert(hasher@.last() =~= seq![0xFFu8]);
            assert(hasher@ =~= before.push(encode_utf8(all@[i as int]@)).push(seq![0xFFu8]));
        }
        i += 1;
    }
    assert(views.take(i as int) =~= views);
    let name = hex16(hasher.finish());
    join_path(join_path(cache_root, "javac-output").as_str(), name.as_str())
}

/// Two spellings of one path share their output directory.
pub proof fn law_output_dir_depends_on_the_path_alone(
    cache_root: Seq<char>,
    a: Seq<char>,
    b: Seq<char>,
)
    requires
        components(a) == components(b),
    ensures
        output_dir(cache_root, a) == output_dir(cache_root, b),
{
}

/// A module's output directory lies right in `javac-output` below the cache
/// root, under a name that any file system takes: sixteen of `0` to `9` and `a`
/// to `f`, which depend on the module's root alone.
pub proof fn law_output_dir_lies_in_the_cache(cache_root: Seq<char>, module_root: Seq<char>)
    ensures
        ({
            let dir = output_dir(cache_root, module_root);
            let name = output_name(module_root);
            let holder = joined_path(cache_root, "javac-output"@);
            &&& components(dir) == components(holder).push(name)
            &&& components(holder) == components(cache_root).push("javac-output"@)
            &&& name_of(dir) == Some(name)
            &&& name.len() == 16
            &&& forall|i: int| 0 <= i < 16 ==> is_hex_char(#[trigger] name[i])
        }),
{
    reveal_strlit("javac-output");
    reveal_strlit(".");
    reveal_strlit("..");
    let name = output_name(module_root);
    lemma_hex16_text(path_hash(module_root), 0);
    assert(!name.contains('/')) by {
        if name.contains('/') {
            let i = choose|i: int| 0 <= i < name.len() && name[i] == '/';
            assert(is_hex_char(name[i]));
        }
    }
    law_a_name_below_a_path_is_one_part_more(joined_path(cache_root, "javac-output"@), name);
    law_a_name_below_a_path_is_one_part_more(cache_root, "javac-output"@);
}

/// Modules share an output directory only where the hashes of their roots agree.
pub proof fn law_output_dir_tells_hashes_apart(
    cache_root: Seq<char>,
    a: Seq<char>,
    b: Seq<char>,
)
    ensures
        output_dir(cache_root, a) == output_dir(cache_root, b) <==> path_hash(a) == path_hash(b),
{
    lemma_hex16_text(path_hash(a), path_hash(b));
    law_output_dir_lies_in_the_cache(cache_root, a);
    law_output_dir_lies_in_the_cache(cache_root, b);
}

// ---------------------------------------------------------------------------
// Arguments
// ---------------------------------------------------------------------------

/// The packages of `javac` that Lombok needs to reach.
pub open spec fn opened_packages() -> Seq<Seq<char>> {
    seq![
        "code"@,
        "comp"@,
        "file"@,
        "main"@,
        "model"@,
        "parser"@,
        "processing"@,
        "tree"@,
        "util"@,
    ]
}

/// The flag that opens a package of `javac`.
pub open spec fn add_opens(package: Seq<char>) -> Seq<char> {
    "-J--add-opens=jdk.compiler/com.sun.tools.javac."@ + package + "=ALL-UNNAMED"@
}

/// The nine flags.
pub open spec fn all_add_opens() -> Seq<Seq<char>> {
    opened_packages().map_values(|p: Seq<char>| add_opens(p))
}

fn add_opens_flag(package: &str) -> (r: String)
    ensures
        r@ == add_opens(package@),
{
    let mut out = "-J--add-opens=jdk.compiler/com.sun.tools.javac.".to_owned();
    out.append(package);
    out.append("=ALL-UNNAMED");
    out
}

/// The nine `--add-opens` flags Lombok needs to access `javac`'s internal AST
/// classes, sealed by module encapsulation since JDK 16. Each is prefixed `-J`
/// so it reaches the JVM running `javac`, not `javac`'s own argument parser.
pub fn add_opens_flags() -> (r: Vec<String>)
    ensures
        texts(r@) == all_add_opens(),
{
    let mut out: Vec<String> = Vec::new();
    out.push(add_opens_flag("code"));
    out.push(add_opens_flag("comp"));
    out.push(add_opens_flag("file"));
    out.push(add_opens_flag("main"));
    out.push(add_opens_flag("model"));
    out.push(add_opens_flag("parser"));
    out.push(add_opens_flag("processing"));
    out.push(add_opens_flag("tree"));
    out.push(add_opens_flag("util"));
    assert(texts(out@) =~= all_add_opens());
    out
}

/// What separates two paths in a list of them.
pub open spec fn path_separator(windows: bool) -> Seq<char> {
    if windows {
        ";"@
    } else {
        ":"@
    }
}

fn join_paths(paths: &Vec<String>, windows: bool) -> (r: String)
    ensures
        r@ == joined(texts(paths@), path_separator(windows)),
{
    join(
        paths,
        if windows {
            ";"
        } else {
            ":"
        },
    )
}

/// An option with a list of paths, left out where the list is empty.
pub open spec fn paths_option(option: Seq<char>, paths: Seq<Seq<char>>, windows: bool) -> Seq<
    Seq<char>,
> {
    if paths.len() == 0 {
        Seq::empty()
    } else {
        seq![option, joined(paths, path_separator(windows))]
    }
}

/// The arguments of `javac`.
pub open spec fn command_args(
    file: Seq<char>,
    module: ModuleView,
    lombok_jar: Seq<char>,
    output_dir: Seq<char>,
    jdk_major_version: Option<u32>,
    windows: bool,
) -> Seq<Seq<char>> {
    (if jdk_major_version is Some && jdk_major_version->0 >= 9 {
        all_add_opens()
    } else {
        Seq::empty()
    }) + paths_option("-sourcepath"@, module.source_dirs, windows) + paths_option(
        "-cp"@,
        module.classpath,
        windows,
    ) + seq!["-processorpath"@, lombok_jar, "-d"@, output_dir, file]
}

fn push_text(out: &mut Vec<String>, s: &str)
    ensures
        texts(final(out)@) == texts(old(out)@).push(s@),
{
    let text = s.to_owned();
    proof {
        lemma_texts_push(out@, text);
    }
    out.push(text);
}

fn push_paths_option(out: &mut Vec<String>, option: &str, paths: &Vec<String>, windows: bool)
    ensures
        texts(final(out)@) == texts(old(out)@) + paths_option(option@, texts(paths@), windows),
{
    let ghost before = texts(out@);
    assert(texts(paths@).len() == paths@.len());
    if paths.len() > 0 {
        push_text(out, option);
        push_text(out, join_paths(paths, windows).as_str());
    }
    assert(texts(out@) =~= before + paths_option(option@, texts(paths@), windows));
}

/// Builds the full `javac` argument list. The `--add-opens` flags are JDK 9+ VM
/// flags: passing them on an older JDK would make the launching JVM refuse to
/// start outright, rather than just skip the access they grant.
pub fn build_command_args(
    file: &str,
    module: &ModuleModel,
    lombok_jar: &str,
    output_dir: &str,
    jdk_major_version: Option<u32>,
    windows: bool,
) -> (r: Vec<String>)
    ensures
        texts(r@) == command_args(
            file@,
            module@,
            lombok_jar@,
            output_dir@,
            jdk_major_version,
            windows,
        ),
{
    let modern = match jdk_major_version {
        Some(version) => version >= 9,
        None => false,
    };
    let mut args: Vec<String> = if modern {
        add_opens_flags()
    } else {
        Vec::new()
    };
    let ghost head = texts(args@);
    assert(!modern ==> head =~= Seq::empty());
    push_paths_option(&mut args, "-sourcepath", &module.source_dirs, windows);
    push_paths_option(&mut args, "-cp", &module.classpath, windows);
    push_text(&mut args, "-processorpath");
    push_text(&mut args, lombok_jar);
    push_text(&mut args, "-d");
    push_text(&mut args, output_dir);
    push_text(&mut args, file);
    assert(texts(args@) =~= command_args(
        file@,
        module@,
        lombok_jar@,
        output_dir@,
        jdk_major_version,
        windows,
    ));
    args
}

/// The `javac` of a JDK.
pub fn javac_executable(jdk: &JdkHome, windows: bool) -> (r: String)
    ensures
        r@ == joined_path(
            joined_path(jdk.path@, "bin"@),
            if windows {
                "javac.exe"@
            } else {
                "javac"@
            },
        ),
{
    let name = if windows {
        "javac.exe"
    } else {
        "javac"
    };
    join_path(join_path(jdk.path.as_str(), "bin").as_str(), name)
}

/// What `javac` is called with ends in the annotation processor's path, the
/// output directory and the file, and the source directories and the classpath
/// stand each behind its option, where there are any. Packages are opened for
/// JDK 9 and later, before everything else, and never for an older one.
pub proof fn law_javac_is_called_with_all_it_needs(
    file: Seq<char>,
    module: ModuleView,
    lombok_jar: Seq<char>,
    output_dir: Seq<char>,
    version: Option<u32>,
    windows: bool,
)
    ensures
        ({
            let args = command_args(file, module, lombok_jar, output_dir, version, windows);
            let n = args.len();
            let separator = if windows {
                seq![';']
            } else {
                seq![':']
            };
            let opened: int = if version is Some && version->0 >= 9 {
                9
            } else {
                0
            };
            let sources: int = if module.source_dirs.len() > 0 {
                2
            } else {
                0
            };
            let classes: int = if module.classpath.len() > 0 {
                2
            } else {
                0
            };
            &&& n == opened + sources + classes + 5
            &&& args[n - 5] == "-processorpath"@ && args[n - 4] == lombok_jar
            &&& args[n - 3] == "-d"@ && args[n - 2] == output_dir
            &&& args[n - 1] == file
            &&& module.source_dirs.len() > 0 ==> args[opened] == "-sourcepath"@ && args[opened
                + 1] == joined(module.source_dirs, separator)
            &&& module.classpath.len() > 0 ==> args[opened + sources] == "-cp"@ && args[opened
                + sources + 1] == joined(module.classpath, separator)
            &&& forall|k: int|
                0 <= k < opened ==> "-J--add-opens=jdk.compiler/com.sun.tools.javac."@.is_prefix_of(
                    #[trigger] args[k],
                ) && "=ALL-UNNAMED"@.is_suffix_of(args[k])
        }),
{
    reveal_strlit(";");
    reveal_strlit(":");
    assert(";"@ =~= seq![';'] && ":"@ =~= seq![':']);
    let args = command_args(file, module, lombok_jar, output_dir, version, windows);
    let opens = all_add_opens();
    assert(opens.len() == 9);
    let opened: int = if version is Some && version->0 >= 9 {
        9
    } else {
        0
    };
    assert forall|k: int|
        0 <= k < opened implies "-J--add-opens=jdk.compiler/com.sun.tools.javac."@.is_prefix_of(
        #[trigger] args[k],
    ) && "=ALL-UNNAMED"@.is_suffix_of(args[k]) by {
        assert(args[k] == opens[k]);
        let a = "-J--add-opens=jdk.compiler/com.sun.tools.javac."@;
        let b = "=ALL-UNNAMED"@;
        let package = opened_packages()[k];
        let flag = a + package + b;
        assert(args[k] == flag);
        assert(a =~= flag.take(a.len() as int));
        assert(b =~= flag.skip(flag.len() - b.len()));
    }
}

/// A Lombok jar is found by its file name, whatever directory it is in and
/// whatever the case of its letters.
pub proof fn law_a_lombok_jar_is_found_by_its_name(dir: Seq<char>, name: Seq<char>)
    requires
        is_part(name),
        name != ".."@,
        !name.contains('/'),
        is_ascii_chars(name),
    ensures
        is_lombok_jar(joined_path(dir, name)) <==> exists|k: int|
            0 <= k && k + 6 <= name.len() && #[trigger] spells_lombok(name, k),
{
    reveal_strlit("lombok");
    law_a_name_below_a_path_is_one_part_more(dir, name);
    let lower = ascii_lowercase(name);
    assert(lowercase(name) == lower);
    lemma_find_text_finds(lower, "lombok"@, 0);
    if exists|k: int| 0 <= k && k + 6 <= name.len() && #[trigger] spells_lombok(name, k) {
        let k = choose|k: int| 0 <= k && k + 6 <= name.len() && #[trigger] spells_lombok(name, k);
        assert(lower.subrange(k, k + 6) =~= "lombok"@);
        assert(stands_at(lower, "lombok"@, k));
    }
    if find_text(lower, "lombok"@, 0) >= 0 {
        let k = find_text(lower, "lombok"@, 0);
        assert(stands_at(lower, "lombok"@, k));
        assert forall|j: int| 0 <= j < 6 implies lower_ascii(#[trigger] name[k + j])
            == "lombok"@[j] by {
            assert(lower.subrange(k, k + 6)[j] == lower[k + j]);
        }
        assert(lower_ascii(name[k + 0]) == 'l');
        lemma_lower(name[k], 'l', 'L');
        lemma_lower(name[k + 1], 'o', 'O');
        lemma_lower(name[k + 2], 'm', 'M');
        lemma_lower(name[k + 3], 'b', 'B');
        lemma_lower(name[k + 4], 'o', 'O');
        lemma_lower(name[k + 5], 'k', 'K');
        assert(spells_lombok(name, k));
    }
}

proof fn lemma_lower(c: char, lower: char, upper: char)
    requires
        lower_ascii(c) == lower,
        'A' <= upper <= 'Z',
        upper as u32 + 32 == lower as u32,
    ensures
        c == lower || c == upper,
{
    if 'A' <= c && c <= 'Z' {
        let u = (c as u32 + 32) as u32;
        vstd::utf8::char_u32_cast(lower, u);
        assert(c as u32 == upper as u32);
        vstd::utf8::char_u32_cast(c, upper as u32);
        vstd::utf8::char_u32_cast(upper, upper as u32);
    }
}

/// Whether `lombok` stands at an index, in letters of either case.
pub open spec fn spells_lombok(name: Seq<char>, k: int) -> bool {
    &&& name[k] == 'l' || name[k] == 'L'
    &&& name[k + 1] == 'o' || name[k + 1] == 'O'
    &&& name[k + 2] == 'm' || name[k + 2] == 'M'
    &&& name[k + 3] == 'b' || name[k + 3] == 'B'
    &&& name[k + 4] == 'o' || name[k + 4] == 'O'
    &&& name[k + 5] == 'k' || name[k + 5] == 'K'
}

proof fn lemma_find_text_finds(s: Seq<char>, t: Seq<char>, from: int)
    requires
        0 <= from <= s.len() + 1,
    ensures
        find_text(s, t, from) >= 0 ==> from <= find_text(s, t, from) && stands_at(
            s,
            t,
            find_text(s, t, from),
        ),
        find_text(s, t, from) < 0 ==> forall|k: int| from <= k ==> !stands_at(s, t, k),
    decreases s.len() + 1 - from,
{
    if from <= s.len() && !stands_at(s, t, from) {
        lemma_find_text_finds(s, t, from + 1);
        assert forall|k: int| find_text(s, t, from) < 0 && from <= k implies !stands_at(
            s,
            t,
            k,
        ) by {}
    }
}

} // verus!
