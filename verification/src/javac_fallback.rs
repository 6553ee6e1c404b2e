//! Fallback for workspaces with no detected build tool
//! ([`crate::build_tool::detect`] returns `None`). This path only supports
//! classpath-free, JDK-only code: it cannot resolve external dependencies, so
//! the classpath is always empty. Its real purpose is to still produce a
//! [`ProjectModel`], so that JDK types are indexed even for a workspace without
//! a build tool.

use crate::jdk_home::JdkHome;
use crate::project_model::{ModuleModel, ModuleView, ProjectModel};
use crate::text::{decimal, texts, to_decimal};
use vstd::prelude::*;

verus! {

/// The one module of a workspace without a build tool: its source directories
/// are the standard ones that exist, or else the root itself.
pub open spec fn fallback_module(
    root: Seq<char>,
    standard_dirs: Seq<Seq<char>>,
    jdk_major_version: Option<u32>,
) -> ModuleView {
    ModuleView {
        root,
        source_dirs: if standard_dirs.len() == 0 {
            seq![root]
        } else {
            standard_dirs
        },
        classpath: Seq::empty(),
        java_version: match jdk_major_version {
            Some(version) => Some(decimal(version as nat)),
            None => None,
        },
    }
}

/// The model of a workspace without a build tool, with those of its standard
/// source directories that exist and the JDK that was located.
pub fn resolve_project_model(
    root: &str,
    standard_dirs: Vec<String>,
    jdk: Option<&JdkHome>,
) -> (r: ProjectModel)
    ensures
        r@ == seq![
            fallback_module(
                root@,
                texts(standard_dirs@),
                match jdk {
                    Some(jdk) => jdk.major_version,
                    None => None,
                },
            ),
        ],
{
    assert(texts(standard_dirs@).len() == standard_dirs@.len());
    let ghost dirs = texts(standard_dirs@);
    let source_dirs = if standard_dirs.len() == 0 {
        let mut own: Vec<String> = Vec::new();
        own.push(root.to_owned());
        assert(texts(own@) =~= seq![root@]);
        own
    } else {
        standard_dirs
    };
    let java_version = match jdk {
        Some(jdk) => match jdk.major_version {
            Some(version) => Some(to_decimal(version as u64)),
            None => None,
        },
        None => None,
    };
    let module = ModuleModel {
        root: root.to_owned(),
        source_dirs,
        classpath: Vec::new(),
        java_version,
    };
    assert(module@.classpath =~= Seq::empty());
    let ghost view = module@;
    let mut modules: Vec<ModuleModel> = Vec::new();
    modules.push(module);
    let r = ProjectModel { modules };
    assert(r@ =~= seq![view]);
    r
}

/// Without a build tool the workspace is one module: of its standard source
/// directories, or of its root where it has none, without a classpath, and for
/// the Java version of the JDK that was located.
pub proof fn law_a_workspace_without_a_build_is_one_module(
    root: Seq<char>,
    dirs: Seq<Seq<char>>,
    version: u32,
)
    ensures
        ({
            let m = fallback_module(root, dirs, Some(version));
            &&& m.root == root
            &&& m.classpath.len() == 0
            &&& dirs.len() > 0 ==> m.source_dirs == dirs
            &&& dirs.len() == 0 ==> m.source_dirs == seq![root]
            &&& m.java_version == Some(decimal(version as nat))
        }),
        fallback_module(root, dirs, None).java_version is None,
{
}

} // verus!
