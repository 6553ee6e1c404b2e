//! The project model of a Maven build.

use crate::path::{join_path, joined_path, slashed, with_slashes};
use crate::project_model::{ModuleModel, ModuleView, ProjectModel};
use crate::text::{
    find, find_text, from_range, lemma_split_add, lemma_split_none, lemma_texts_push, opt_str,
    opt_text, same_text, split, split_at_char, stands_at, texts, to_chars, trim, trimmed,
};
use vstd::prelude::*;
use vstd::string::*;

verus! {

// ---------------------------------------------------------------------------
// Tags
// ---------------------------------------------------------------------------

pub proof fn lemma_find_text(s: Seq<char>, t: Seq<char>, from: int)
    ensures
        find_text(s, t, from) == -1 || (from <= find_text(s, t, from) && stands_at(
            s,
            t,
            find_text(s, t, from),
        )),
    decreases s.len() + 1 - from,
{
    if 0 <= from <= s.len() && !stands_at(s, t, from) {
        lemma_find_text(s, t, from + 1);
    }
}

/// What stands between an opening and the next closing tag, time after time,
/// from an index on; an opening tag that is never closed ends it.
pub open spec fn contents_from(
    xml: Seq<char>,
    opening: Seq<char>,
    closing: Seq<char>,
    from: int,
) -> Seq<Seq<char>>
    decreases xml.len() - from,
{
    proof {
        lemma_find_text(xml, opening, from);
        lemma_find_text(
            xml,
            closing,
            find_text(xml, opening, from) + opening.len(),
        );
    }
    let start = find_text(xml, opening, from) + opening.len();
    let end = find_text(xml, closing, start);
    if from < 0 || opening.len() == 0 || closing.len() == 0 || find_text(xml, opening, from) < 0
        || end < 0 {
        Seq::empty()
    } else {
        seq![xml.subrange(start, end)] + contents_from(
            xml,
            opening,
            closing,
            end + closing.len(),
        )
    }
}

/// The contents of every occurrence of a tag.
pub open spec fn tag_contents(xml: Seq<char>, tag: Seq<char>) -> Seq<Seq<char>> {
    contents_from(xml, "<"@ + tag + ">"@, "</"@ + tag + ">"@, 0)
}

/// The contents of every occurrence of a tag.
pub fn extract_all_tag_contents(xml: &str, tag: &str) -> (r: Vec<String>)
    ensures
        texts(r@) == tag_contents(xml@, tag@),
{
    let mut open_text = "<".to_owned();
    open_text.append(tag);
    open_text.append(">");
    let mut close_text = "</".to_owned();
    close_text.append(tag);
    close_text.append(">");
    let opening = to_chars(open_text.as_str());
    let closing = to_chars(close_text.as_str());
    proof {
        reveal_strlit("<");
        reveal_strlit("</");
        reveal_strlit(">");
    }
    let chars = to_chars(xml);
    let total: usize = chars.len();
    let mut results: Vec<String> = Vec::new();
    let mut pos: usize = 0;
    let ghost whole = tag_contents(xml@, tag@);
    assert(texts(results@) + whole =~= whole);
    loop
        invariant_except_break
            pos <= total,
            total == chars@.len(),
            chars@ == xml@,
            opening@.len() > 0,
            closing@.len() > 0,
            whole == texts(results@) + contents_from(xml@, opening@, closing@, pos as int),
        ensures
            texts(results@) == whole,
        decreases total - pos,
    {
        let ghost before = texts(results@);
        let mut found = false;
        if let Some(at) = find(&chars, &opening, pos) {
            let start: usize = at + opening.len();
            if let Some(end) = find(&chars, &closing, start) {
                let piece = from_range(&chars, start, end);
                proof {
                    lemma_texts_push(results@, piece);
                }
                results.push(piece);
                pos = end + closing.len();
                found = true;
                assert(before + (seq![piece@] + contents_from(
                    xml@,
                    opening@,
                    closing@,
                    pos as int,
                )) =~= before.push(piece@) + contents_from(xml@, opening@, closing@, pos as int));
            }
        }
        if !found {
            assert(before + Seq::empty() =~= before);
            break;
        }
    }
    results
}

// ---------------------------------------------------------------------------
// Modules
// ---------------------------------------------------------------------------

/// The directories of the modules that a directory's `pom.xml` names.
pub open spec fn module_dirs(dir: Seq<char>, pom: Seq<char>) -> Seq<Seq<char>> {
    tag_contents(pom, "module"@).map_values(|name: Seq<char>| joined_path(dir, trimmed(name)))
}

/// The directories of a build and below it, each before those that it names:
/// those with a `pom.xml`, as `poms` gives it. `None` where modules name each
/// other more than `depth` deep.
pub open spec fn modules_below(
    dirs: Seq<Seq<char>>,
    poms: spec_fn(Seq<char>) -> Option<Seq<char>>,
    depth: nat,
) -> Option<Seq<Seq<char>>>
    decreases depth, dirs.len(),
{
    if dirs.len() == 0 {
        Some(Seq::empty())
    } else {
        let first = match poms(dirs[0]) {
            None => Some(Seq::empty()),
            Some(pom) => if depth == 0 {
                None
            } else {
                match modules_below(module_dirs(dirs[0], pom), poms, (depth - 1) as nat) {
                    Some(below) => Some(seq![dirs[0]] + below),
                    None => None,
                }
            },
        };
        match (first, modules_below(dirs.skip(1), poms, depth)) {
            (Some(a), Some(b)) => Some(a + b),
            _ => None,
        }
    }
}

/// A search for the modules of a build, one directory at a time: the
/// directories still to look at, the next one last, and the modules found.
pub struct ModuleSearch {
    pending: Vec<String>,
    discovered: Vec<String>,
}

/// What a [`ModuleSearch`] has come to, as mathematical values; the next
/// directory to look at comes first.
pub struct SearchView {
    pub pending: Seq<Seq<char>>,
    pub discovered: Seq<Seq<char>>,
}

impl View for ModuleSearch {
    type V = SearchView;

    closed spec fn view(&self) -> SearchView {
        SearchView {
            pending: texts(self.pending@).reverse(),
            discovered: texts(self.discovered@),
        }
    }
}

/// What looking at the next directory does: one with a `pom.xml` is a module,
/// and the modules that it names come next.
pub open spec fn looked_at(search: SearchView, pom: Option<Seq<char>>) -> SearchView {
    let dir = search.pending[0];
    match pom {
        Some(text) => SearchView {
            pending: module_dirs(dir, text) + search.pending.skip(1),
            discovered: search.discovered.push(dir),
        },
        None => SearchView { pending: search.pending.skip(1), ..search },
    }
}

impl ModuleSearch {
    /// A search from a root down.
    pub fn new(root: &str) -> (r: Self)
        ensures
            r@ == (SearchView { pending: seq![root@], discovered: Seq::empty() }),
    {
        let mut pending: Vec<String> = Vec::new();
        pending.push(root.to_owned());
        let r = ModuleSearch { pending, discovered: Vec::new() };
        assert(r@.pending =~= seq![root@]);
        assert(r@.discovered =~= Seq::empty());
        r
    }

    /// The directory to look at next.
    pub fn next_dir(&self) -> (r: Option<String>)
        ensures
            match r {
                Some(dir) => self@.pending.len() > 0 && dir@ == self@.pending[0],
                None => self@.pending.len() == 0,
            },
    {
        let count: usize = self.pending.len();
        if count == 0 {
            None
        } else {
            Some(self.pending[count - 1].clone())
        }
    }

    /// Takes in the `pom.xml` of the directory that was next, if it has one.
    pub fn visit(&mut self, pom: Option<&str>)
        requires
            old(self)@.pending.len() > 0,
        ensures
            final(self)@ == looked_at(
                old(self)@,
                match pom {
                    Some(text) => Some(text@),
                    None => None,
                },
            ),
    {
        let ghost start = self@;
        let ghost stack = texts(self.pending@);
        let count: usize = self.pending.len();
        assert(stack.reverse().len() == count);
        if let Some(dir) = self.pending.pop() {
            assert(start.pending[0] == dir@);
            assert(texts(self.pending@) =~= stack.drop_last());
            assert(texts(self.pending@).reverse() =~= start.pending.skip(1));
            if let Some(text) = pom {
                let names = extract_all_tag_contents(text, "module");
                let ghost views = texts(names@);
                let ghost wanted = module_dirs(dir@, text@);
                let ghost rest = texts(self.pending@);
                proof {
                    lemma_texts_push(self.discovered@, dir);
                    assert(wanted.len() == names@.len());
                }
                let mut i: usize = names.len();
                assert(wanted.skip(i as int) =~= Seq::empty());
                assert(Seq::<Seq<char>>::empty() + rest.reverse() =~= rest.reverse());
                while i > 0
                    invariant
                        i <= names.len(),
                        views == texts(names@),
                        views == tag_contents(text@, "module"@),
                        wanted == module_dirs(dir@, text@),
                        wanted.len() == names@.len(),
                        self.discovered == old(self).discovered,
                        texts(self.pending@).reverse() == wanted.skip(i as int) + rest.reverse(),
                    decreases i,
                {
                    i -= 1;
                    let ghost before = self.pending@;
                    let below = join_path(dir.as_str(), trim(names[i].as_str()).as_str());
                    proof {
                        assert(views[i as int] == names@[i as int]@);
                        assert(below@ == wanted[i as int]);
                        lemma_texts_push(before, below);
                    }
                    self.pending.push(below);
                    proof {
                        assert(texts(self.pending@).reverse() =~= seq![wanted[i as int]] + texts(
                            before,
                        ).reverse());
                        assert(wanted.skip(i as int) =~= seq![wanted[i as int]] + wanted.skip(
                            i + 1,
                        ));
                        assert(texts(self.pending@).reverse() =~= wanted.skip(i as int)
                            + rest.reverse());
                    }
                }
                assert(wanted.skip(0) =~= wanted);
                self.discovered.push(dir);
            }
        }
    }

    /// The modules found.
    pub fn modules(&self) -> (r: &Vec<String>)
        ensures
            texts(r@) == self@.discovered,
    {
        &self.discovered
    }
}

/// Looking at the next directory leaves unchanged what the search will have
/// found in the end: a search that is carried on until nothing is pending finds
/// the modules of the build, each before those that it names.
pub proof fn law_search_finds_the_modules_in_order(
    search: SearchView,
    poms: spec_fn(Seq<char>) -> Option<Seq<char>>,
    depth: nat,
)
    requires
        search.pending.len() > 0,
        modules_below(search.pending, poms, depth) is Some,
    ensures
        ({
            let now = looked_at(search, poms(search.pending[0]));
            modules_below(now.pending, poms, depth) is Some && now.discovered + modules_below(
                now.pending,
                poms,
                depth,
            )->0 == search.discovered + modules_below(search.pending, poms, depth)->0
        }),
{
    let dir = search.pending[0];
    let rest = search.pending.skip(1);
    let tail = modules_below(rest, poms, depth)->0;
    match poms(dir) {
        None => {
            assert(Seq::<Seq<char>>::empty() + tail =~= tail);
        },
        Some(pom) => {
            let below = module_dirs(dir, pom);
            let found = modules_below(below, poms, (depth - 1) as nat)->0;
            lemma_depth(below, poms, (depth - 1) as nat, depth);
            lemma_modules_add(below, rest, poms, depth);
            assert(search.discovered.push(dir) + (found + tail) =~= search.discovered + ((seq![dir]
                + found) + tail));
        },
    }
}

proof fn lemma_depth(
    dirs: Seq<Seq<char>>,
    poms: spec_fn(Seq<char>) -> Option<Seq<char>>,
    small: nat,
    large: nat,
)
    requires
        small <= large,
        modules_below(dirs, poms, small) is Some,
    ensures
        modules_below(dirs, poms, large) == modules_below(dirs, poms, small),
    decreases small, dirs.len(),
{
    if dirs.len() > 0 {
        lemma_depth(dirs.skip(1), poms, small, large);
        if let Some(pom) = poms(dirs[0]) {
            lemma_depth(module_dirs(dirs[0], pom), poms, (small - 1) as nat, (large - 1) as nat);
        }
    }
}

proof fn lemma_modules_add(
    a: Seq<Seq<char>>,
    b: Seq<Seq<char>>,
    poms: spec_fn(Seq<char>) -> Option<Seq<char>>,
    depth: nat,
)
    requires
        modules_below(a, poms, depth) is Some,
        modules_below(b, poms, depth) is Some,
    ensures
        modules_below(a + b, poms, depth) == Some(
            modules_below(a, poms, depth)->0 + modules_below(b, poms, depth)->0,
        ),
    decreases a.len(),
{
    let y = modules_below(b, poms, depth)->0;
    if a.len() == 0 {
        assert(a + b =~= b);
        assert(Seq::<Seq<char>>::empty() + y =~= y);
    } else {
        lemma_modules_add(a.skip(1), b, poms, depth);
        assert((a + b).skip(1) =~= a.skip(1) + b);
        let x = modules_below(a.skip(1), poms, depth)->0;
        let head = match poms(a[0]) {
            None => Seq::empty(),
            Some(pom) => seq![a[0]] + modules_below(
                module_dirs(a[0], pom),
                poms,
                (depth - 1) as nat,
            )->0,
        };
        assert(head + (x + y) =~= (head + x) + y);
    }
}

// ---------------------------------------------------------------------------
// What is known of a module
// ---------------------------------------------------------------------------

/// The standard source directories that exist.
pub open spec fn standard_dirs(dir: Seq<char>, main: bool, test: bool) -> Seq<Seq<char>> {
    (if main {
        seq![joined_path(dir, "src/main/java"@)]
    } else {
        Seq::empty()
    }) + (if test {
        seq![joined_path(dir, "src/test/java"@)]
    } else {
        Seq::empty()
    })
}

/// The standard source directories of a module: those that exist, of
/// `src/main/java` and `src/test/java`.
pub fn standard_source_dirs(module_dir: &str, has_main: bool, has_test: bool) -> (r: Vec<String>)
    ensures
        texts(r@) == standard_dirs(module_dir@, has_main, has_test),
{
    let mut out: Vec<String> = Vec::new();
    if has_main {
        out.push(join_path(module_dir, "src/main/java"));
    }
    if has_test {
        out.push(join_path(module_dir, "src/test/java"));
    }
    assert(texts(out@) =~= standard_dirs(module_dir@, has_main, has_test));
    out
}

/// The entries of a classpath file: what stands between separators and is not
/// empty.
pub open spec fn classpath_entries(content: Seq<char>, windows: bool) -> Seq<Seq<char>> {
    split_at_char(
        content,
        if windows {
            ';'
        } else {
            ':'
        },
    ).filter(|e: Seq<char>| e.len() > 0)
}

/// The entries of a classpath file; none where there is no such file.
pub fn read_classpath(content: Option<&str>, windows: bool) -> (r: Vec<String>)
    ensures
        texts(r@) == match content {
            Some(text) => classpath_entries(text@, windows),
            None => Seq::empty(),
        },
{
    let mut out: Vec<String> = Vec::new();
    assert(texts(out@) =~= Seq::empty());
    if let Some(text) = content {
        let entries = split(
            text,
            if windows {
                ';'
            } else {
                ':'
            },
        );
        let ghost views = texts(entries@);
        let ghost pred = |e: Seq<char>| e.len() > 0;
        let mut i: usize = 0;
        proof {
            assert(views.take(0) =~= Seq::empty());
            assert(Seq::<Seq<char>>::empty().filter(pred) =~= Seq::empty()) by {
                reveal(Seq::filter);
            }
        }
        while i < entries.len()
            invariant
                i <= entries.len(),
                views == texts(entries@),
                pred == (|e: Seq<char>| e.len() > 0),
                texts(out@) == views.take(i as int).filter(pred),
            decreases entries.len() - i,
        {
            let entry = entries[i].clone();
            proof {
                assert(views.take(i + 1) =~= views.take(i as int).push(views[i as int]));
                views.take(i as int).lemma_filter_push(views[i as int], pred);
                lemma_texts_push(out@, entry);
            }
            if !entry.as_str().is_empty() {
                out.push(entry);
            }
            i += 1;
        }
        assert(views.take(i as int) =~= views);
    }
    out
}

/// The value that Maven gave of an expression: its output without the white
/// space around it, where that is a value.
pub open spec fn expression_value(stdout: Seq<char>) -> Option<Seq<char>> {
    let text = trimmed(stdout);
    if text.len() == 0 || text == "null object or invalid expression"@ {
        None
    } else {
        Some(text)
    }
}

/// The value that Maven gave of an expression.
pub fn evaluated(stdout: &str) -> (r: Option<String>)
    ensures
        opt_text(r) == expression_value(stdout@),
{
    let text = trim(stdout);
    if text.as_str().is_empty() || same_text(text.as_str(), "null object or invalid expression") {
        None
    } else {
        Some(text)
    }
}

/// The expressions that give a module's Java version, the first with a value
/// counting.
pub open spec fn version_expression_list() -> Seq<Seq<char>> {
    seq!["maven.compiler.release"@, "maven.compiler.target"@, "maven.compiler.source"@]
}

/// The expressions that give a module's Java version.
pub fn version_expressions() -> (r: Vec<String>)
    ensures
        texts(r@) == version_expression_list(),
{
    let mut out: Vec<String> = Vec::new();
    out.push("maven.compiler.release".to_owned());
    out.push("maven.compiler.target".to_owned());
    out.push("maven.compiler.source".to_owned());
    assert(texts(out@) =~= version_expression_list());
    out
}

/// The search for a module's Java version, by one expression after the other
/// until one has a value.
pub struct VersionSearch {
    asked: usize,
    version: Option<String>,
}

/// What a [`VersionSearch`] holds, as mathematical values: how many expressions
/// Maven was asked for, and the version, once one had a value.
pub struct VersionView {
    pub asked: nat,
    pub version: Option<Seq<char>>,
}

impl View for VersionSearch {
    type V = VersionView;

    closed spec fn view(&self) -> VersionView {
        VersionView { asked: self.asked as nat, version: opt_text(self.version) }
    }
}

/// Whether Maven is to be asked for another expression.
pub open spec fn is_asking(search: VersionView) -> bool {
    search.version is None && search.asked < version_expression_list().len()
}

/// The value in what Maven wrote, where it could be run.
pub open spec fn answer_value(stdout: Option<Seq<char>>) -> Option<Seq<char>> {
    match stdout {
        Some(text) => expression_value(text),
        None => None,
    }
}

/// The search behind an answer.
pub open spec fn after_answer(search: VersionView, stdout: Option<Seq<char>>) -> VersionView {
    VersionView { asked: search.asked + 1, version: answer_value(stdout) }
}

impl VersionSearch {
    pub fn new() -> (r: Self)
        ensures
            r@ == (VersionView { asked: 0, version: None }),
    {
        VersionSearch { asked: 0, version: None }
    }

    /// The expression to ask Maven for next.
    pub fn next_expression(&self) -> (r: Option<String>)
        ensures
            opt_text(r) == if is_asking(self@) {
                Some(version_expression_list()[self@.asked as int])
            } else {
                None
            },
    {
        let all = version_expressions();
        assert(texts(all@).len() == all@.len());
        if self.version.is_some() || self.asked >= all.len() {
            None
        } else {
            assert(texts(all@)[self.asked as int] == all@[self.asked as int]@);
            Some(all[self.asked].clone())
        }
    }

    /// Takes in what Maven wrote for the expression that was next; `None` where
    /// it failed.
    pub fn answered(&mut self, stdout: Option<&str>)
        requires
            is_asking(old(self)@),
        ensures
            final(self)@ == after_answer(old(self)@, opt_str(stdout)),
    {
        self.asked = self.asked + 1;
        self.version = match stdout {
            Some(text) => evaluated(text),
            None => None,
        };
    }

    /// The version that was found.
    pub fn version(&self) -> (r: Option<String>)
        ensures
            opt_text(r) == self@.version,
    {
        match &self.version {
            Some(version) => Some(version.clone()),
            None => None,
        }
    }
}

/// The first value among answers.
pub open spec fn first_value(answers: Seq<Option<Seq<char>>>) -> Option<Seq<char>>
    decreases answers.len(),
{
    if answers.len() == 0 {
        None
    } else if answer_value(answers[0]) is Some {
        answer_value(answers[0])
    } else {
        first_value(answers.skip(1))
    }
}

/// The version that a search ends with, where these are the answers to the
/// expressions that are still to come.
pub open spec fn version_found(
    search: VersionView,
    answers: Seq<Option<Seq<char>>>,
) -> Option<Seq<char>>
    decreases answers.len(),
{
    if is_asking(search) && answers.len() > 0 {
        version_found(after_answer(search, answers[0]), answers.skip(1))
    } else {
        search.version
    }
}

/// The first expression with a value gives the version, and there is none where
/// no expression has a value.
pub proof fn law_the_first_value_is_the_version(
    search: VersionView,
    answers: Seq<Option<Seq<char>>>,
)
    requires
        search.version is None,
        search.asked + answers.len() == version_expression_list().len(),
    ensures
        version_found(search, answers) == first_value(answers),
    decreases answers.len(),
{
    if answers.len() > 0 {
        let next = after_answer(search, answers[0]);
        if next.version is None {
            law_the_first_value_is_the_version(next, answers.skip(1));
        }
    }
}

/// The file, below a module, that the classpath is written to.
pub fn classpath_file() -> (r: &'static str)
    ensures
        r@ == "target/java-lsp-classpath.txt"@,
{
    "target/java-lsp-classpath.txt"
}

/// The arguments under which Maven builds the project and writes the classpath
/// of each module.
pub fn build_args() -> (r: Vec<String>)
    ensures
        texts(r@) == seq![
            "-q"@,
            "-B"@,
            "package"@,
            "dependency:build-classpath"@,
            "-Dmdep.outputFile="@ + "target/java-lsp-classpath.txt"@,
            "-DskipTests"@,
        ],
{
    let mut file = "-Dmdep.outputFile=".to_owned();
    file.append(classpath_file());
    let mut out: Vec<String> = Vec::new();
    out.push("-q".to_owned());
    out.push("-B".to_owned());
    out.push("package".to_owned());
    out.push("dependency:build-classpath".to_owned());
    out.push(file);
    out.push("-DskipTests".to_owned());
    assert(texts(out@) =~= seq![
        "-q"@,
        "-B"@,
        "package"@,
        "dependency:build-classpath"@,
        "-Dmdep.outputFile="@ + "target/java-lsp-classpath.txt"@,
        "-DskipTests"@,
    ]);
    out
}

/// The arguments under which Maven prints the value of an expression.
pub fn evaluate_args(expression: &str) -> (r: Vec<String>)
    ensures
        texts(r@) == seq![
            "-q"@,
            "-B"@,
            "help:evaluate"@,
            "-Dexpression="@ + expression@,
            "-DforceStdout"@,
        ],
{
    let mut wanted = "-Dexpression=".to_owned();
    wanted.append(expression);
    let mut out: Vec<String> = Vec::new();
    out.push("-q".to_owned());
    out.push("-B".to_owned());
    out.push("help:evaluate".to_owned());
    out.push(wanted);
    out.push("-DforceStdout".to_owned());
    assert(texts(out@) =~= seq![
        "-q"@,
        "-B"@,
        "help:evaluate"@,
        "-Dexpression="@ + expression@,
        "-DforceStdout"@,
    ]);
    out
}

/// The name of the wrapper script that a workspace may hold.
pub fn wrapper_name(windows: bool) -> (r: &'static str)
    ensures
        r@ == if windows {
            "mvnw.cmd"@
        } else {
            "mvnw"@
        },
{
    if windows {
        "mvnw.cmd"
    } else {
        "mvnw"
    }
}

/// The program that runs Maven: the workspace's wrapper, where it holds one.
pub fn maven_program(root: &str, has_wrapper: bool, windows: bool) -> (r: String)
    ensures
        r@ == if has_wrapper {
            joined_path(
                root@,
                if windows {
                    "mvnw.cmd"@
                } else {
                    "mvnw"@
                },
            )
        } else {
            "mvn"@
        },
{
    if has_wrapper {
        join_path(root, wrapper_name(windows))
    } else {
        "mvn".to_owned()
    }
}

/// What was found of one module.
pub struct FoundModule {
    pub dir: String,
    /// The content of its classpath file.
    pub classpath: Option<String>,
    pub has_main: bool,
    pub has_test: bool,
    pub java_version: Option<String>,
}

/// The model of a module.
pub open spec fn module_of(found: FoundModule, windows: bool) -> ModuleView {
    ModuleView {
        root: slashed(found.dir@, windows),
        source_dirs: standard_dirs(slashed(found.dir@, windows), found.has_main, found.has_test),
        classpath: match found.classpath {
            Some(content) => classpath_entries(slashed(content@, windows), windows),
            None => Seq::empty(),
        },
        java_version: opt_text(found.java_version),
    }
}

/// The project model of the modules that were found. The Java version is each
/// module's own (not the root's), so a child `pom.xml` that overrides
/// `maven.compiler.*` is honored.
pub fn resolve_project_model(found: &Vec<FoundModule>, windows: bool) -> (r: ProjectModel)
    ensures
        r@ == found@.map_values(|f: FoundModule| module_of(f, windows)),
{
    let ghost wanted = found@.map_values(|f: FoundModule| module_of(f, windows));
    let mut modules: Vec<ModuleModel> = Vec::new();
    let mut i: usize = 0;
    assert(modules@.map_values(|m: ModuleModel| m@) =~= wanted.take(0));
    while i < found.len()
        invariant
            i <= found.len(),
            wanted == found@.map_values(|f: FoundModule| module_of(f, windows)),
            modules@.map_values(|m: ModuleModel| m@) == wanted.take(i as int),
        decreases found.len() - i,
    {
        let f = &found[i];
        let classpath = match &f.classpath {
            Some(content) => {
                let text = with_slashes(content.as_str(), windows);
                read_classpath(Some(text.as_str()), windows)
            },
            None => read_classpath(None, windows),
        };
        let root = with_slashes(f.dir.as_str(), windows);
        let source_dirs = standard_source_dirs(root.as_str(), f.has_main, f.has_test);
        let module = ModuleModel {
            root,
            source_dirs,
            classpath,
            java_version: match &f.java_version {
                Some(version) => Some(version.clone()),
                None => None,
            },
        };
        let ghost before = modules@;
        assert(module@ == wanted[i as int]);
        modules.push(module);
        proof {
            assert(modules@.map_values(|m: ModuleModel| m@) =~= before.map_values(
                |m: ModuleModel| m@,
            ).push(module@));
            assert(wanted.take(i + 1) =~= wanted.take(i as int).push(wanted[i as int]));
        }
        i += 1;
    }
    assert(wanted.take(i as int) =~= wanted);
    ProjectModel { modules }
}

/// The contents of a tag are what stands between its opening and its closing:
/// before anything that follows, and behind what holds no opening of it.
pub proof fn law_a_tag_gives_what_stands_in_it(
    before: Seq<char>,
    content: Seq<char>,
    rest: Seq<char>,
)
    requires
        !before.contains('<'),
        !content.contains('<'),
    ensures
        ({
            let xml = before + "<module>"@ + content + "</module>"@ + rest;
            let all = tag_contents(xml, "module"@);
            &&& all.len() > 0
            &&& all[0] == content
        }),
        tag_contents(before, "module"@).len() == 0,
{
    reveal_strlit("<");
    reveal_strlit("</");
    reveal_strlit(">");
    reveal_strlit("module");
    reveal_strlit("<module>");
    reveal_strlit("</module>");
    let opening = "<"@ + "module"@ + ">"@;
    let closing = "</"@ + "module"@ + ">"@;
    assert(opening =~= "<module>"@);
    assert(closing =~= "</module>"@);
    let xml = before + opening + content + closing + rest;
    let start = (before.len() + opening.len()) as int;
    let end = start + content.len();
    assert forall|k: int| 0 <= k < before.len() implies xml[k] != '<' by {
        assert(xml[k] == before[k]);
        assert(before.contains(before[k]));
    }
    assert(xml.subrange(before.len() as int, start) =~= opening);
    lemma_found_at(xml, opening, 0, before.len() as int);
    assert forall|k: int| start <= k < end implies xml[k] != '<' by {
        assert(xml[k] == content[k - start]);
        assert(content.contains(content[k - start]));
    }
    assert(xml.subrange(end, end + closing.len()) =~= closing);
    lemma_found_at(xml, closing, start, end);
    assert(xml.subrange(start, end) =~= content);
    let rests = contents_from(xml, opening, closing, end + closing.len());
    assert(tag_contents(xml, "module"@) == seq![content] + rests);
    assert forall|k: int| 0 <= k <= before.len() implies !stands_at(before, opening, k) by {
        if stands_at(before, opening, k) {
            assert(before.subrange(k, k + opening.len())[0] == before[k]);
            assert(before.contains(before[k]));
        }
    }
    lemma_not_found(before, opening, 0);
}

proof fn lemma_found_at(s: Seq<char>, t: Seq<char>, from: int, at: int)
    requires
        0 <= from <= at,
        at + t.len() <= s.len(),
        t.len() > 0,
        t[0] == '<',
        s.subrange(at, at + t.len()) == t,
        forall|k: int| from <= k < at ==> s[k] != '<',
    ensures
        find_text(s, t, from) == at,
    decreases at - from,
{
    if from < at {
        assert(!stands_at(s, t, from)) by {
            if stands_at(s, t, from) {
                assert(s.subrange(from, from + t.len())[0] == s[from]);
            }
        }
        lemma_found_at(s, t, from + 1, at);
    }
}

proof fn lemma_not_found(s: Seq<char>, t: Seq<char>, from: int)
    requires
        0 <= from,
        forall|k: int| from <= k <= s.len() ==> !stands_at(s, t, k),
    ensures
        find_text(s, t, from) < 0,
    decreases s.len() + 1 - from,
{
    if from <= s.len() {
        lemma_not_found(s, t, from + 1);
    }
}

/// The source directories of a module are its standard ones, the main one first,
/// of those that exist.
pub proof fn law_a_module_has_its_standard_source_dirs(dir: Seq<char>)
    requires
        dir.len() > 0,
        dir.last() != '/',
    ensures
        standard_dirs(dir, true, true) == seq![
            dir + "/src/main/java"@,
            dir + "/src/test/java"@,
        ],
        standard_dirs(dir, true, false) == seq![dir + "/src/main/java"@],
        standard_dirs(dir, false, true) == seq![dir + "/src/test/java"@],
        standard_dirs(dir, false, false).len() == 0,
{
    reveal_strlit("/");
    reveal_strlit("src/main/java");
    reveal_strlit("src/test/java");
    reveal_strlit("/src/main/java");
    reveal_strlit("/src/test/java");
    assert(dir + "/"@ + "src/main/java"@ =~= dir + "/src/main/java"@);
    assert(dir + "/"@ + "src/test/java"@ =~= dir + "/src/test/java"@);
    assert(standard_dirs(dir, true, true) =~= seq![
        dir + "/src/main/java"@,
        dir + "/src/test/java"@,
    ]);
    assert(standard_dirs(dir, true, false) =~= seq![dir + "/src/main/java"@]);
    assert(standard_dirs(dir, false, true) =~= seq![dir + "/src/test/java"@]);
}

/// A classpath file holds entries with the platform's separator between them.
pub proof fn law_a_classpath_has_the_entries_between_its_separators(
    entry: Seq<char>,
    rest: Seq<char>,
    windows: bool,
)
    requires
        entry.len() > 0,
        !entry.contains(if windows {
            ';'
        } else {
            ':'
        }),
    ensures
        ({
            let separator = if windows {
                ';'
            } else {
                ':'
            };
            &&& classpath_entries(entry, windows) == seq![entry]
            &&& classpath_entries(entry + seq![separator] + rest, windows) == seq![entry]
                + classpath_entries(rest, windows)
            &&& classpath_entries(seq![separator] + rest, windows) == classpath_entries(
                rest,
                windows,
            )
        }),
{
    let separator = if windows {
        ';'
    } else {
        ':'
    };
    let pred = |e: Seq<char>| e.len() > 0;
    lemma_split_none(entry, separator);
    lemma_split_add(entry, separator, rest);
    lemma_split_add(Seq::empty(), separator, rest);
    lemma_split_none(Seq::empty(), separator);
    assert(Seq::<char>::empty() + seq![separator] + rest =~= seq![separator] + rest);
    let pieces = split_at_char(rest, separator);
    reveal(Seq::filter);
    assert(seq![entry].drop_last() =~= Seq::empty());
    assert(Seq::<Seq<char>>::empty().push(entry) =~= seq![entry]);
    assert(seq![entry].filter(pred) =~= seq![entry]);
    let nothing: Seq<char> = Seq::empty();
    assert(seq![nothing].drop_last() =~= Seq::empty());
    assert(seq![nothing].filter(pred) =~= Seq::empty());
    Seq::filter_distributes_over_add(seq![entry], pieces, pred);
    Seq::filter_distributes_over_add(seq![nothing], pieces, pred);
    assert(Seq::<Seq<char>>::empty() + pieces.filter(pred) =~= pieces.filter(pred));
}

} // verus!
