//! Which build tool a workspace uses, by the files in its root.

use crate::text::{same_text, texts};
use vstd::prelude::*;

verus! {

#[derive(Debug, Clone, Copy, PartialEq, Eq, Structural)]
pub enum BuildTool {
    Gradle,
    Maven,
}

/// The files that mark a Gradle build.
pub open spec fn gradle_markers() -> Seq<Seq<char>> {
    seq!["build.gradle"@, "build.gradle.kts"@, "settings.gradle"@, "settings.gradle.kts"@]
}

/// The file that marks a Maven build.
pub open spec fn maven_marker() -> Seq<char> {
    "pom.xml"@
}

/// The build tool of a root that holds these files: Gradle where one of its
/// files is there, else Maven where its file is.
pub open spec fn tool_of(files: Seq<Seq<char>>) -> Option<BuildTool> {
    if exists|i: int| 0 <= i < files.len() && gradle_markers().contains(#[trigger] files[i]) {
        Some(BuildTool::Gradle)
    } else if files.contains(maven_marker()) {
        Some(BuildTool::Maven)
    } else {
        None
    }
}

/// The names of the files that mark a build, to be looked for in a root.
pub fn marker_files() -> (r: Vec<String>)
    ensures
        texts(r@) == gradle_markers().push(maven_marker()),
{
    let mut out: Vec<String> = Vec::new();
    out.push("build.gradle".to_owned());
    out.push("build.gradle.kts".to_owned());
    out.push("settings.gradle".to_owned());
    out.push("settings.gradle.kts".to_owned());
    out.push("pom.xml".to_owned());
    assert(texts(out@) =~= gradle_markers().push(maven_marker()));
    out
}

fn is_gradle_marker(file: &str) -> (r: bool)
    ensures
        r == gradle_markers().contains(file@),
{
    let ghost m = gradle_markers();
    assert(m[0] == "build.gradle"@ && m[1] == "build.gradle.kts"@ && m[2] == "settings.gradle"@
        && m[3] == "settings.gradle.kts"@);
    same_text(file, "build.gradle") || same_text(file, "build.gradle.kts") || same_text(
        file,
        "settings.gradle",
    ) || same_text(file, "settings.gradle.kts")
}

/// The build tool of a workspace whose root holds these files.
pub fn detect(files: &Vec<String>) -> (r: Option<BuildTool>)
    ensures
        r == tool_of(texts(files@)),
{
    let ghost views = texts(files@);
    let mut maven = false;
    let mut i: usize = 0;
    while i < files.len()
        invariant
            i <= files.len(),
            views == texts(files@),
            forall|k: int| 0 <= k < i ==> !gradle_markers().contains(#[trigger] views[k]),
            maven == exists|k: int| 0 <= k < i && #[trigger] views[k] == maven_marker(),
        decreases files.len() - i,
    {
        assert(views[i as int] == files@[i as int]@);
        if is_gradle_marker(files[i].as_str()) {
            assert(gradle_markers().contains(views[i as int]));
            return Some(BuildTool::Gradle);
        }
        if same_text(files[i].as_str(), "pom.xml") {
            assert(views[i as int] == maven_marker());
            maven = true;
        }
        i += 1;
    }
    if maven {
        Some(BuildTool::Maven)
    } else {
        None
    }
}

/// A Gradle file decides for Gradle, whatever else is there.
pub proof fn law_gradle_is_preferred(files: Seq<Seq<char>>, i: int)
    requires
        0 <= i < files.len(),
        gradle_markers().contains(files[i]),
    ensures
        tool_of(files) == Some(BuildTool::Gradle),
{
}

/// The build tool shows in the files of a root: Gradle in any of its build or
/// settings files, Maven in its project file where there is none of these, and
/// none where there is neither.
pub proof fn law_the_build_tool_shows_in_its_files(files: Seq<Seq<char>>)
    ensures
        files.contains("build.gradle"@) || files.contains("build.gradle.kts"@) || files.contains(
            "settings.gradle"@,
        ) || files.contains("settings.gradle.kts"@) <==> tool_of(files) == Some(BuildTool::Gradle),
        tool_of(files) == Some(BuildTool::Maven) ==> files.contains("pom.xml"@),
        tool_of(files) is None ==> !files.contains("pom.xml"@),
{
    let all = gradle_markers();
    assert(all[0] == "build.gradle"@ && all[1] == "build.gradle.kts"@ && all[2]
        == "settings.gradle"@ && all[3] == "settings.gradle.kts"@);
    assert forall|name: Seq<char>| files.contains(name) && all.contains(name) implies tool_of(files)
        == Some(BuildTool::Gradle) by {
        let k = choose|k: int| 0 <= k < files.len() && files[k] == name;
        assert(all.contains(files[k]));
    }
    assert(all.contains(all[0]) && all.contains(all[1]) && all.contains(all[2]) && all.contains(
        all[3],
    ));
    if tool_of(files) == Some(BuildTool::Gradle) {
        let i = choose|i: int| 0 <= i < files.len() && all.contains(#[trigger] files[i]);
        assert(files.contains(files[i]));
    }
}

} // verus!
