//! The project model as a Gradle build reports it.

use crate::path::{join_path, joined_path, slashed, with_slashes};
use crate::project_model::{ModuleModel, ModuleView, ProjectModel};
use crate::text::{after_prefix, lemma_texts_push, lines, lines_of, strip_prefix, texts};
use vstd::prelude::*;
use vstd::string::*;

verus! {

/// A module of which only its root is known.
pub open spec fn bare_module(root: Seq<char>) -> ModuleView {
    ModuleView { root, source_dirs: Seq::empty(), classpath: Seq::empty(), java_version: None }
}

/// What one line of the report does to the modules reported so far: a project
/// line starts a module, and the other lines add to the last one.
pub open spec fn after_line(modules: Seq<ModuleView>, line: Seq<char>) -> Seq<ModuleView> {
    let last = modules.last();
    let earlier = modules.drop_last();
    match after_prefix(line, "JAVA_LSP_PROJECT "@) {
        Some(dir) => modules.push(bare_module(dir)),
        None => if modules.len() == 0 {
            modules
        } else {
            match after_prefix(line, "JAVA_LSP_SOURCE_DIR "@) {
                Some(dir) => earlier.push(
                    ModuleView { source_dirs: last.source_dirs.push(dir), ..last },
                ),
                None => match after_prefix(line, "JAVA_LSP_JAVA_VERSION "@) {
                    Some(version) => earlier.push(
                        ModuleView { java_version: Some(version), ..last },
                    ),
                    None => match after_prefix(line, "JAVA_LSP_CLASSPATH_ENTRY "@) {
                        Some(entry) => earlier.push(
                            ModuleView { classpath: last.classpath.push(entry), ..last },
                        ),
                        None => modules,
                    },
                },
            }
        },
    }
}

/// The modules that the lines of a report give.
pub open spec fn reported(lines: Seq<Seq<char>>) -> Seq<ModuleView>
    decreases lines.len(),
{
    if lines.len() == 0 {
        Seq::empty()
    } else {
        after_line(reported(lines.drop_last()), lines.last())
    }
}

fn take_line(modules: &mut Vec<ModuleModel>, line: &str)
    ensures
        final(modules)@.map_values(|m: ModuleModel| m@) == after_line(
            old(modules)@.map_values(|m: ModuleModel| m@),
            line@,
        ),
{
    let ghost before = modules@.map_values(|m: ModuleModel| m@);
    if let Some(dir) = strip_prefix(line, "JAVA_LSP_PROJECT ") {
        let module = ModuleModel {
            root: dir,
            source_dirs: Vec::new(),
            classpath: Vec::new(),
            java_version: None,
        };
        proof {
            assert(module@.source_dirs =~= Seq::empty());
            assert(module@.classpath =~= Seq::empty());
            assert(module@ == bare_module(module@.root));
        }
        modules.push(module);
        assert(modules@.map_values(|m: ModuleModel| m@) =~= before.push(module@));
        return;
    }
    let count: usize = modules.len();
    if count == 0 {
        return;
    }
    let at: usize = count - 1;
    let ghost old_list = modules@;
    let ghost last = modules@[at as int];
    proof {
        assert(before.last() == last@);
        assert(before.len() == count);
    }
    if let Some(dir) = strip_prefix(line, "JAVA_LSP_SOURCE_DIR ") {
        proof {
            lemma_texts_push(last.source_dirs@, dir);
        }
        modules[at].source_dirs.push(dir);
    } else if let Some(version) = strip_prefix(line, "JAVA_LSP_JAVA_VERSION ") {
        modules[at].java_version = Some(version);
    } else if let Some(entry) = strip_prefix(line, "JAVA_LSP_CLASSPATH_ENTRY ") {
        proof {
            lemma_texts_push(last.classpath@, entry);
        }
        modules[at].classpath.push(entry);
    }
    proof {
        let now = modules@.map_values(|m: ModuleModel| m@);
        assert(now =~= before.drop_last().push(modules@[at as int]@));
        assert(before.drop_last().push(before.last()) =~= before);
    }
}

/// The project model in a report.
pub fn parse_project_model(stdout: &str) -> (r: ProjectModel)
    ensures
        r@ == reported(lines_of(stdout@)),
{
    let all = lines(stdout);
    let ghost views = texts(all@);
    let mut modules: Vec<ModuleModel> = Vec::new();
    let mut i: usize = 0;
    assert(views.take(0) =~= Seq::empty());
    assert(modules@.map_values(|m: ModuleModel| m@) =~= Seq::empty());
    while i < all.len()
        invariant
            i <= all.len(),
            views == texts(all@),
            modules@.map_values(|m: ModuleModel| m@) == reported(views.take(i as int)),
        decreases all.len() - i,
    {
        proof {
            assert(views.take(i + 1).drop_last() =~= views.take(i as int));
            assert(views.take(i + 1).last() == all@[i as int]@);
        }
        take_line(&mut modules, all[i].as_str());
        i += 1;
    }
    assert(views.take(i as int) =~= views);
    ProjectModel { modules }
}

/// The project model that Gradle reported on this machine.
pub fn resolve_project_model(stdout: &str, windows: bool) -> (r: ProjectModel)
    ensures
        r@ == reported(lines_of(slashed(stdout@, windows))),
{
    parse_project_model(with_slashes(stdout, windows).as_str())
}

/// The name of the wrapper script that a workspace may hold.
pub fn wrapper_name(windows: bool) -> (r: &'static str)
    ensures
        r@ == if windows {
            "gradlew.bat"@
        } else {
            "gradlew"@
        },
{
    if windows {
        "gradlew.bat"
    } else {
        "gradlew"
    }
}

/// The program that runs Gradle: the workspace's wrapper, where it holds one.
pub fn gradle_program(root: &str, has_wrapper: bool, windows: bool) -> (r: String)
    ensures
        r@ == if has_wrapper {
            joined_path(
                root@,
                if windows {
                    "gradlew.bat"@
                } else {
                    "gradlew"@
                },
            )
        } else {
            "gradle"@
        },
{
    if has_wrapper {
        join_path(root, wrapper_name(windows))
    } else {
        "gradle".to_owned()
    }
}

/// The arguments under which Gradle writes the report.
pub fn gradle_args(init_script: &str) -> (r: Vec<String>)
    ensures
        texts(r@) == seq![
            "--console=plain"@,
            "-q"@,
            "--init-script"@,
            init_script@,
            "javaLspProjectModel"@,
        ],
{
    let mut out: Vec<String> = Vec::new();
    out.push("--console=plain".to_owned());
    out.push("-q".to_owned());
    out.push("--init-script".to_owned());
    out.push(init_script.to_owned());
    out.push("javaLspProjectModel".to_owned());
    assert(texts(out@) =~= seq![
        "--console=plain"@,
        "-q"@,
        "--init-script"@,
        init_script@,
        "javaLspProjectModel"@,
    ]);
    out
}

/// Nothing before the first project line counts.
pub proof fn law_report_starts_with_a_project(lines: Seq<Seq<char>>)
    requires
        forall|i: int|
            0 <= i < lines.len() ==> after_prefix(#[trigger] lines[i], "JAVA_LSP_PROJECT "@) is None,
    ensures
        reported(lines) == Seq::<ModuleView>::empty(),
    decreases lines.len(),
{
    if lines.len() > 0 {
        let before = lines.drop_last();
        assert forall|i: int| 0 <= i < before.len() implies after_prefix(
            #[trigger] before[i],
            "JAVA_LSP_PROJECT "@,
        ) is None by {
            assert(before[i] == lines[i]);
        }
        law_report_starts_with_a_project(before);
        assert(after_prefix(lines[lines.len() - 1], "JAVA_LSP_PROJECT "@) is None);
    }
}

/// There are as many modules as project lines.
pub proof fn law_one_module_per_project_line(lines: Seq<Seq<char>>)
    ensures
        reported(lines).len() == lines.filter(
            |l: Seq<char>| after_prefix(l, "JAVA_LSP_PROJECT "@) is Some,
        ).len(),
    decreases lines.len(),
{
    reveal(Seq::filter);
    if lines.len() > 0 {
        law_one_module_per_project_line(lines.drop_last());
    }
}

/// A report of a project, line by line: each line that names a project starts a
/// module, and a source directory, a classpath entry or a Java version belongs
/// to the project named last. Any other line says nothing.
pub proof fn law_each_line_belongs_to_the_project_named_last(
    lines: Seq<Seq<char>>,
    value: Seq<char>,
    other: Seq<char>,
)
    requires
        reported(lines).len() > 0,
        !"JAVA_LSP_"@.is_prefix_of(other),
    ensures
        ({
            let before = reported(lines);
            let last = before.last();
            let project = reported(lines.push("JAVA_LSP_PROJECT "@ + value));
            let dir = reported(lines.push("JAVA_LSP_SOURCE_DIR "@ + value));
            let entry = reported(lines.push("JAVA_LSP_CLASSPATH_ENTRY "@ + value));
            let version = reported(lines.push("JAVA_LSP_JAVA_VERSION "@ + value));
            &&& project.len() == before.len() + 1
            &&& project.drop_last() == before
            &&& project.last().root == value
            &&& project.last().source_dirs.len() == 0
            &&& project.last().classpath.len() == 0
            &&& project.last().java_version is None
            &&& dir == before.drop_last().push(
                ModuleView { source_dirs: last.source_dirs.push(value), ..last },
            )
            &&& entry == before.drop_last().push(
                ModuleView { classpath: last.classpath.push(value), ..last },
            )
            &&& version == before.drop_last().push(
                ModuleView { java_version: Some(value), ..last },
            )
            &&& reported(lines.push(other)) == before
        }),
{
    reveal_strlit("JAVA_LSP_");
    reveal_strlit("JAVA_LSP_PROJECT ");
    reveal_strlit("JAVA_LSP_SOURCE_DIR ");
    reveal_strlit("JAVA_LSP_CLASSPATH_ENTRY ");
    reveal_strlit("JAVA_LSP_JAVA_VERSION ");
    let project = "JAVA_LSP_PROJECT "@;
    let dir = "JAVA_LSP_SOURCE_DIR "@;
    let entry = "JAVA_LSP_CLASSPATH_ENTRY "@;
    let version = "JAVA_LSP_JAVA_VERSION "@;
    assert(project[9] == 'P' && dir[9] == 'S' && entry[9] == 'C' && version[9] == 'J');
    assert(lines.push(project + value).drop_last() =~= lines);
    assert(lines.push(dir + value).drop_last() =~= lines);
    assert(lines.push(entry + value).drop_last() =~= lines);
    assert(lines.push(version + value).drop_last() =~= lines);
    assert(lines.push(other).drop_last() =~= lines);
    lemma_after_prefix(project, project, value);
    lemma_after_prefix(project, dir, value);
    lemma_after_prefix(project, entry, value);
    lemma_after_prefix(project, version, value);
    lemma_after_prefix(dir, dir, value);
    lemma_after_prefix(dir, entry, value);
    lemma_after_prefix(dir, version, value);
    lemma_after_prefix(entry, entry, value);
    lemma_after_prefix(version, entry, value);
    lemma_after_prefix(version, version, value);
    let before = reported(lines);
    assert(before.push(bare_module(value)).drop_last() =~= before);
    lemma_not_behind(project, other);
    lemma_not_behind(dir, other);
    lemma_not_behind(entry, other);
    lemma_not_behind(version, other);
}

proof fn lemma_after_prefix(wanted: Seq<char>, prefix: Seq<char>, value: Seq<char>)
    requires
        wanted.len() > 9,
        prefix.len() > 9,
        wanted[9] == prefix[9] ==> wanted == prefix,
    ensures
        after_prefix(prefix + value, wanted) == if wanted == prefix {
            Some(value)
        } else {
            None
        },
{
    let line = prefix + value;
    if wanted == prefix {
        assert(wanted.is_prefix_of(line));
        assert(line.skip(prefix.len() as int) =~= value);
    } else if wanted.is_prefix_of(line) {
        assert(line[9] == wanted[9]);
        assert(line[9] == prefix[9]);
    }
}

proof fn lemma_not_behind(wanted: Seq<char>, line: Seq<char>)
    requires
        "JAVA_LSP_"@.is_prefix_of(wanted),
        !"JAVA_LSP_"@.is_prefix_of(line),
    ensures
        after_prefix(line, wanted) is None,
{
    let short = "JAVA_LSP_"@;
    if wanted.is_prefix_of(line) {
        assert(short =~= line.take(short.len() as int)) by {
            assert(forall|k: int| 0 <= k < wanted.len() ==> wanted[k] == line[k]);
            assert(forall|k: int| 0 <= k < short.len() ==> short[k] == wanted[k]);
        }
        assert(short.is_prefix_of(line));
    }
}

} // verus!
