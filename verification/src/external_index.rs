//! Symbols of dependencies: given the classes of a dependency jar or the JDK,
//! decides which of them are indexed, and where and as what source text their
//! synthetic stubs (see [`crate::class_stub`]) are kept.

use crate::class_stub::{
    is_identifier, is_valid_simple_name, package_and_simple_name, render_stub, simple_name_of, stub,
};
use crate::classfile::{ClassFile, ClassFileView, class_file, parse};
use crate::path::{extension, extension_of, file_name, join_path, joined_path, name_of};
use crate::jar::{JarErrorView, class_entries, class_views, classes_of, zip_entries};
use crate::lombok::{Overrides, override_views};
use crate::text::{same_text, starts_with};
use crate::workspace_index::FileUpdate;
use crate::workspace_scan::{
    file_symbols, index_source_file_with_overrides, overridden, scanned, update_view,
};
use vstd::prelude::*;
use vstd::string::*;

verus! {

/// Where the cache is: `$XDG_CACHE_HOME/java-lsp`, else
/// `$HOME/.cache/java-lsp`, else in the directory for temporary files.
pub open spec fn cache_root(
    xdg_cache_home: Option<Seq<char>>,
    home: Option<Seq<char>>,
    temp_dir: Seq<char>,
) -> Seq<char> {
    match (xdg_cache_home, home) {
        (Some(dir), _) => joined_path(dir, "java-lsp"@),
        (None, Some(dir)) => joined_path(joined_path(dir, ".cache"@), "java-lsp"@),
        (None, None) => joined_path(temp_dir, "java-lsp-cache"@),
    }
}

/// `$XDG_CACHE_HOME/java-lsp`, falling back to `$HOME/.cache/java-lsp`, then a
/// temp directory if neither is set: where extracted JDK classfiles and
/// rendered stub `.java` files are cached across server sessions.
pub fn default_cache_root(
    xdg_cache_home: Option<&str>,
    home: Option<&str>,
    temp_dir: &str,
) -> (r: String)
    ensures
        r@ == cache_root(
            match xdg_cache_home {
                Some(dir) => Some(dir@),
                None => None,
            },
            match home {
                Some(dir) => Some(dir@),
                None => None,
            },
            temp_dir@,
        ),
{
    match xdg_cache_home {
        Some(dir) => join_path(dir, "java-lsp"),
        None => match home {
            Some(dir) => join_path(join_path(dir, ".cache").as_str(), "java-lsp"),
            None => join_path(temp_dir, "java-lsp-cache"),
        },
    }
}

/// Whether a path is a classfile's, but for the description of a module.
pub open spec fn is_class_path(path: Seq<char>) -> bool {
    extension_of(path) == Some("class"@) && name_of(path) != Some("module-info.class"@)
}

/// Whether a path is a classfile's, but for the description of a module.
pub fn is_class_file(path: &str) -> (r: bool)
    ensures
        r == is_class_path(path@),
{
    match extension(path) {
        Some(ext) => if same_text(ext.as_str(), "class") {
            match file_name(path) {
                Some(name) => !same_text(name.as_str(), "module-info.class"),
                None => false,
            }
        } else {
            false
        },
        None => false,
    }
}

/// Whether a class is internal to the JDK.
pub open spec fn is_internal(this_class: Seq<char>) -> bool {
    "jdk/internal/"@.is_prefix_of(this_class) || "sun/"@.is_prefix_of(this_class)
}

/// `jdk.internal.*` (module-encapsulated, uncompilable against without special
/// flags since JDK 9) and `sun.*` (documented as unsupported, non-public API
/// since Java's earliest days) can never be referenced by ordinary application
/// code: indexing them only adds noise to same-name lookups for common accessor
/// names.
pub fn is_jdk_internal_class(this_class: &str) -> (r: bool)
    ensures
        r == is_internal(this_class@),
{
    starts_with(this_class, "jdk/internal/") || starts_with(this_class, "sun/")
}

/// Where a class's stub is kept: by the full binary name (not the simple name),
/// so distinct nested classes that happen to share a simple name never collide
/// on the same file.
pub open spec fn stub_path(cache_root: Seq<char>, this_class: Seq<char>) -> Seq<char> {
    joined_path(joined_path(cache_root, "stubs"@), this_class + ".java"@)
}

/// A stub: where it is kept, and its source text.
#[derive(Debug, PartialEq, Eq)]
pub struct Stub {
    pub path: String,
    pub text: String,
}

/// What a [`Stub`] says, as mathematical values.
pub struct StubView {
    pub path: Seq<char>,
    pub text: Seq<char>,
}

impl View for Stub {
    type V = StubView;

    open spec fn view(&self) -> StubView {
        StubView { path: self.path@, text: self.text@ }
    }
}

pub open spec fn stub_view(value: Option<Stub>) -> Option<StubView> {
    match value {
        Some(s) => Some(s@),
        None => None,
    }
}

/// The stub of a class that a source text can name.
pub open spec fn class_stub(class: ClassFileView, cache_root: Seq<char>) -> Option<StubView> {
    if is_identifier(simple_name_of(class.this_class)) {
        Some(StubView { path: stub_path(cache_root, class.this_class), text: stub(class) })
    } else {
        None
    }
}

/// The stub of the class that bytes are, where they are a class that
/// application code can name.
pub open spec fn stub_of(bytes: Seq<u8>, cache_root: Seq<char>) -> Option<StubView> {
    match class_file(bytes) {
        Ok(class) => if is_internal(class.this_class) {
            None
        } else {
            class_stub(class, cache_root)
        },
        Err(_) => None,
    }
}

/// The stub of a class; `None` for one without a name of its own, such as an
/// anonymous class.
pub fn stub_for_class(class: &ClassFile, cache_root: &str) -> (r: Option<Stub>)
    ensures
        stub_view(r) == class_stub(class@, cache_root@),
{
    let (_, simple_name) = package_and_simple_name(class.this_class.as_str());
    if !is_valid_simple_name(simple_name.as_str()) {
        return None;
    }
    let mut file = class.this_class.clone();
    file.append(".java");
    Some(
        Stub {
            path: join_path(join_path(cache_root, "stubs").as_str(), file.as_str()),
            text: render_stub(class),
        },
    )
}

/// The stub to index for a classfile's bytes; `None` where they are no
/// classfile, or one that application code cannot name.
pub fn stub_for_class_bytes(bytes: &[u8], cache_root: &str) -> (r: Option<Stub>)
    ensures
        stub_view(r) == stub_of(bytes@, cache_root@),
{
    match parse(bytes) {
        Ok(class) => if is_jdk_internal_class(class.this_class.as_str()) {
            None
        } else {
            stub_for_class(&class, cache_root)
        },
        Err(_) => None,
    }
}

/// The stubs of a list, as mathematical values.
pub open spec fn stub_views(list: Seq<Stub>) -> Seq<StubView> {
    list.map_values(|s: Stub| s@)
}

/// The stubs of the classes of a list that application code can name, in their
/// order.
pub open spec fn stubs_of(
    classes: Seq<(Seq<char>, Seq<u8>)>,
    cache_root: Seq<char>,
) -> Seq<StubView>
    decreases classes.len(),
{
    if classes.len() == 0 {
        Seq::empty()
    } else {
        let before = stubs_of(classes.drop_last(), cache_root);
        match stub_of(classes.last().1, cache_root) {
            Some(s) => before.push(s),
            None => before,
        }
    }
}

/// The stubs of a jar's classes; none where it cannot be read.
pub open spec fn jar_stubs(
    classes: Result<Seq<(Seq<char>, Seq<u8>)>, JarErrorView>,
    cache_root: Seq<char>,
) -> Seq<StubView> {
    match classes {
        Ok(list) => stubs_of(list, cache_root),
        Err(_) => Seq::empty(),
    }
}

/// The stubs of the classes of a list that application code can name, in their
/// order.
pub fn stubs_for_classes(classes: &Vec<(String, Vec<u8>)>, cache_root: &str) -> (r: Vec<Stub>)
    ensures
        stub_views(r@) == stubs_of(class_views(classes@), cache_root@),
{
    let ghost views = class_views(classes@);
    let mut out: Vec<Stub> = Vec::new();
    let mut i: usize = 0;
    assert(views.take(0) =~= Seq::empty());
    assert(stub_views(out@) =~= Seq::empty());
    while i < classes.len()
        invariant
            i <= classes.len(),
            views == class_views(classes@),
            stub_views(out@) == stubs_of(views.take(i as int), cache_root@),
        decreases classes.len() - i,
    {
        let ghost before = out@;
        proof {
            assert(views.take(i + 1).drop_last() =~= views.take(i as int));
            assert(views.take(i + 1).last() == views[i as int]);
        }
        if let Some(stub) = stub_for_class_bytes(classes[i].1.as_slice(), cache_root) {
            let ghost view = stub@;
            out.push(stub);
            assert(stub_views(out@) =~= stub_views(before).push(view));
        }
        i += 1;
    }
    assert(views.take(i as int) =~= views);
    out
}

/// The stubs to index for a dependency jar with these bytes: one for every
/// class that application code can name. None where the bytes are no readable
/// jar: a broken dependency must never block indexing of the rest of the
/// classpath.
pub fn index_classpath_entry(jar: &str, bytes: Vec<u8>, cache_root: &str) -> (r: Vec<Stub>)
    ensures
        stub_views(r@) == jar_stubs(classes_of(jar@, zip_entries(bytes@)), cache_root@),
{
    match class_entries(jar, bytes) {
        Ok(classes) => stubs_for_classes(&classes, cache_root),
        Err(_) => {
            let none: Vec<Stub> = Vec::new();
            assert(stub_views(none@) =~= Seq::empty());
            none
        },
    }
}

/// A stub that is written anew, and what it is indexed with.
pub struct Reindexed {
    pub stub: Stub,
    pub update: Option<FileUpdate>,
}

/// Re-indexes a single class's stub, applying `overrides` to its extracted
/// symbols: used by the Lombok pipeline to exclude hand-written duplicates and
/// redirect generated accessors to their backing fields. `None` for a class
/// without a name of its own.
pub fn reindex_class_file_with_overrides(
    class: &ClassFile,
    cache_root: &str,
    overrides: &Overrides,
) -> (r: Option<Reindexed>)
    ensures
        match r {
            Some(reindexed) => class_stub(class@, cache_root@) == Some(reindexed.stub@)
                && update_view(reindexed.update) == scanned(
                stub_path(cache_root@, class@.this_class),
                overridden(
                    file_symbols(stub_path(cache_root@, class@.this_class), stub(class@)),
                    override_views(overrides@),
                ),
            ),
            None => class_stub(class@, cache_root@) is None,
        },
{
    match stub_for_class(class, cache_root) {
        Some(stub) => {
            let update = index_source_file_with_overrides(
                stub.path.as_str(),
                stub.text.as_str(),
                overrides,
            );
            Some(Reindexed { stub, update })
        },
        None => None,
    }
}

/// Whether a stub is to be written. Jar and JDK content is immutable for the
/// life of a session, so a stub that is already there is reused as it is; what
/// comes from source that is being edited is always written anew.
pub fn must_write_stub(exists: bool, overwrite: bool) -> (r: bool)
    ensures
        r == (overwrite || !exists),
{
    overwrite || !exists
}

/// Classes with different binary names are kept in different files.
pub proof fn law_stubs_do_not_collide(root: Seq<char>, a: Seq<char>, b: Seq<char>)
    requires
        stub_path(root, a) == stub_path(root, b),
        !crate::path::is_absolute(a + ".java"@),
        !crate::path::is_absolute(b + ".java"@),
    ensures
        a == b,
{
    let base = joined_path(root, "stubs"@);
    let (x, y) = (a + ".java"@, b + ".java"@);
    let (p, q) = (joined_path(base, x), joined_path(base, y));
    let from = if base.len() > 0 && base.last() != '/' {
        (base + "/"@).len() as int
    } else {
        base.len() as int
    };
    assert(p.skip(from) =~= x);
    assert(q.skip(from) =~= y);
    assert(x.len() == y.len());
    assert(x.take(x.len() - ".java"@.len()) =~= a);
    assert(y.take(y.len() - ".java"@.len()) =~= b);
}

/// The cache is below the directory for caches, else below the home directory,
/// else in the directory for temporary files.
pub proof fn law_the_cache_lies_where_the_environment_says(
    caches: Seq<char>,
    home: Option<Seq<char>>,
    temp_dir: Seq<char>,
)
    ensures
        cache_root(Some(caches), home, temp_dir) == joined_path(caches, "java-lsp"@),
        home is Some ==> cache_root(None, home, temp_dir) == joined_path(
            joined_path(home->0, ".cache"@),
            "java-lsp"@,
        ),
        cache_root(None, None, temp_dir) == joined_path(temp_dir, "java-lsp-cache"@),
{
}

/// Every class that application code can name has its stub: under its binary
/// name, with the text that the class gives. Classes that are internal to the
/// JDK, have no name of their own or cannot be read have none.
pub proof fn law_every_nameable_class_has_its_stub(bytes: Seq<u8>, cache: Seq<char>)
    ensures
        match class_file(bytes) {
            Ok(class) => {
                let internal = "jdk/internal/"@.is_prefix_of(class.this_class)
                    || "sun/"@.is_prefix_of(class.this_class);
                if internal || !is_identifier(simple_name_of(class.this_class)) {
                    stub_of(bytes, cache) is None
                } else {
                    stub_of(bytes, cache) == Some(
                        StubView {
                            path: joined_path(
                                joined_path(cache, "stubs"@),
                                class.this_class + ".java"@,
                            ),
                            text: stub(class),
                        },
                    )
                }
            },
            Err(_) => stub_of(bytes, cache) is None,
        },
{
}

/// The stubs of a list of classes are those of its classes, in their order.
pub proof fn law_stubs_come_in_the_order_of_their_classes(
    classes: Seq<(Seq<char>, Seq<u8>)>,
    class: (Seq<char>, Seq<u8>),
    cache: Seq<char>,
)
    ensures
        stubs_of(classes.push(class), cache) == match stub_of(class.1, cache) {
            Some(s) => stubs_of(classes, cache).push(s),
            None => stubs_of(classes, cache),
        },
        stubs_of(Seq::empty(), cache).len() == 0,
{
    assert(classes.push(class).drop_last() =~= classes);
}

} // verus!
