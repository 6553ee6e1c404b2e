//! What a build tool says of a project.

use crate::path::{lies_in, path_starts_with};
use crate::text::{lemma_texts_push, same_text, texts};
use crate::text_position::{byte_len, lemma_byte_len};
use vstd::prelude::*;
use vstd::string::*;

verus! {

#[derive(Debug, Clone, PartialEq)]
pub struct ModuleModel {
    pub root: String,
    pub source_dirs: Vec<String>,
    pub classpath: Vec<String>,
    pub java_version: Option<String>,
}

#[derive(Debug, Clone, PartialEq)]
pub struct ProjectModel {
    pub modules: Vec<ModuleModel>,
}

/// What a [`ModuleModel`] says, as mathematical values.
pub struct ModuleView {
    pub root: Seq<char>,
    pub source_dirs: Seq<Seq<char>>,
    pub classpath: Seq<Seq<char>>,
    pub java_version: Option<Seq<char>>,
}

impl View for ModuleModel {
    type V = ModuleView;

    open spec fn view(&self) -> ModuleView {
        ModuleView {
            root: self.root@,
            source_dirs: texts(self.source_dirs@),
            classpath: texts(self.classpath@),
            java_version: crate::text::opt_text(self.java_version),
        }
    }
}

impl View for ProjectModel {
    type V = Seq<ModuleView>;

    open spec fn view(&self) -> Seq<ModuleView> {
        self.modules@.map_values(|m: ModuleModel| m@)
    }
}

impl Default for ProjectModel {
    fn default() -> (r: Self)
        ensures
            r@ == Seq::<ModuleView>::empty(),
    {
        let r = ProjectModel { modules: Vec::new() };
        assert(r@ =~= Seq::empty());
        r
    }
}

/// The length in bytes of the longest directory that holds a file, or -1 where
/// none does.
pub open spec fn longest_match(dirs: Seq<Seq<char>>, file: Seq<char>) -> int
    decreases dirs.len(),
{
    if dirs.len() == 0 {
        -1
    } else {
        let before = longest_match(dirs.drop_last(), file);
        let here = if lies_in(file, dirs.last()) {
            byte_len(dirs.last()) as int
        } else {
            -1
        };
        if here > before {
            here
        } else {
            before
        }
    }
}

/// Whether the module at `i` is the one that a file belongs to: a source
/// directory of it holds the file, none of another module that does is longer,
/// and none of a later module is as long.
pub open spec fn owns_file(modules: Seq<ModuleView>, i: int, file: Seq<char>) -> bool {
    &&& 0 <= i < modules.len()
    &&& longest_match(modules[i].source_dirs, file) >= 0
    &&& forall|j: int|
        0 <= j < modules.len() ==> longest_match(#[trigger] modules[j].source_dirs, file)
            <= longest_match(modules[i].source_dirs, file)
    &&& forall|j: int|
        i < j < modules.len() ==> longest_match(#[trigger] modules[j].source_dirs, file)
            < longest_match(modules[i].source_dirs, file)
}

fn longest(dirs: &Vec<String>, file: &str) -> (r: Option<usize>)
    ensures
        match r {
            Some(n) => longest_match(texts(dirs@), file@) == n,
            None => longest_match(texts(dirs@), file@) == -1,
        },
{
    let ghost views = texts(dirs@);
    let mut best: Option<usize> = None;
    let mut i: usize = 0;
    assert(views.take(0) =~= Seq::empty());
    while i < dirs.len()
        invariant
            i <= dirs.len(),
            views == texts(dirs@),
            match best {
                Some(n) => longest_match(views.take(i as int), file@) == n,
                None => longest_match(views.take(i as int), file@) == -1,
            },
        decreases dirs.len() - i,
    {
        proof {
            assert(views.take(i + 1).drop_last() =~= views.take(i as int));
            assert(views.take(i + 1).last() == dirs@[i as int]@);
            lemma_byte_len(dirs@[i as int]@);
        }
        if path_starts_with(file, dirs[i].as_str()) {
            let len: usize = dirs[i].as_str().as_bytes().len();
            let longer = match best {
                Some(n) => len > n,
                None => true,
            };
            if longer {
                best = Some(len);
            }
        }
        i += 1;
    }
    assert(views.take(i as int) =~= views);
    best
}

impl ProjectModel {
    /// The module whose source directories hold `file`, preferring the longest
    /// matching source directory when more than one module's could (e.g.
    /// nested modules), and the last of several that match as well.
    pub fn module_for_file(&self, file: &str) -> (r: Option<&ModuleModel>)
        ensures
            match r {
                Some(module) => exists|i: int|
                    owns_file(self@, i, file@) && *module == #[trigger] self.modules@[i],
                None => forall|i: int|
                    0 <= i < self@.len() ==> longest_match(#[trigger] self@[i].source_dirs, file@)
                        == -1,
            },
    {
        let ghost views = self@;
        let mut best: Option<(usize, usize)> = None;
        let mut i: usize = 0;
        while i < self.modules.len()
            invariant
                i <= self.modules.len(),
                views == self@,
                match best {
                    Some((b, n)) => b < i && longest_match(views[b as int].source_dirs, file@) == n
                        && (forall|j: int|
                        0 <= j < i ==> longest_match(#[trigger] views[j].source_dirs, file@) <= n)
                        && (forall|j: int|
                        b < j < i ==> longest_match(#[trigger] views[j].source_dirs, file@) < n),
                    None => forall|j: int|
                        0 <= j < i ==> longest_match(#[trigger] views[j].source_dirs, file@) == -1,
                },
            decreases self.modules.len() - i,
        {
            assert(views[i as int] == self.modules@[i as int]@);
            if let Some(len) = longest(&self.modules[i].source_dirs, file) {
                let better = match best {
                    Some((_, n)) => len >= n,
                    None => true,
                };
                if better {
                    best = Some((i, len));
                }
            }
            i += 1;
        }
        match best {
            Some((b, _)) => {
                assert(owns_file(views, b as int, file@));
                Some(&self.modules[b])
            },
            None => None,
        }
    }
}

/// At most one module owns a file.
pub proof fn law_a_file_has_one_module(modules: Seq<ModuleView>, i: int, j: int, file: Seq<char>)
    requires
        owns_file(modules, i, file),
        owns_file(modules, j, file),
    ensures
        i == j,
{
    if i < j {
        assert(longest_match(modules[j].source_dirs, file) < longest_match(
            modules[i].source_dirs,
            file,
        ));
    } else if j < i {
        assert(longest_match(modules[i].source_dirs, file) < longest_match(
            modules[j].source_dirs,
            file,
        ));
    }
}

// ---------------------------------------------------------------------------
// The classpath as a whole
// ---------------------------------------------------------------------------

/// The entries of a list that no earlier entry is the same as, behind those
/// already taken.
pub open spec fn first_occurrences(taken: Seq<Seq<char>>, entries: Seq<Seq<char>>) -> Seq<Seq<char>>
    decreases entries.len(),
{
    if entries.len() == 0 {
        taken
    } else {
        let before = first_occurrences(taken, entries.drop_last());
        if before.contains(entries.last()) {
            before
        } else {
            before.push(entries.last())
        }
    }
}

/// Every classpath entry of the modules, each once, in the order in which they
/// first occur.
pub open spec fn classpath_of(modules: Seq<ModuleView>) -> Seq<Seq<char>>
    decreases modules.len(),
{
    if modules.len() == 0 {
        Seq::empty()
    } else {
        first_occurrences(classpath_of(modules.drop_last()), modules.last().classpath)
    }
}

fn holds(list: &Vec<String>, entry: &str) -> (r: bool)
    ensures
        r == texts(list@).contains(entry@),
{
    let ghost views = texts(list@);
    let mut i: usize = 0;
    while i < list.len()
        invariant
            i <= list.len(),
            views == texts(list@),
            forall|k: int| 0 <= k < i ==> views[k] != entry@,
        decreases list.len() - i,
    {
        if same_text(list[i].as_str(), entry) {
            assert(views[i as int] == entry@);
            return true;
        }
        i += 1;
    }
    false
}

/// Every classpath entry of the project, each once, in the order in which they
/// first occur.
pub fn distinct_classpath(model: &ProjectModel) -> (r: Vec<String>)
    ensures
        texts(r@) == classpath_of(model@),
{
    let ghost modules = model@;
    let mut out: Vec<String> = Vec::new();
    let mut i: usize = 0;
    assert(modules.take(0) =~= Seq::empty());
    assert(texts(out@) =~= Seq::empty());
    while i < model.modules.len()
        invariant
            i <= model.modules.len(),
            modules == model@,
            texts(out@) == classpath_of(modules.take(i as int)),
        decreases model.modules.len() - i,
    {
        let entries = &model.modules[i].classpath;
        let ghost views = texts(entries@);
        let ghost taken = texts(out@);
        proof {
            assert(modules.take(i + 1).drop_last() =~= modules.take(i as int));
            assert(modules.take(i + 1).last() == model.modules@[i as int]@);
            assert(views.take(0) =~= Seq::empty());
        }
        let mut k: usize = 0;
        while k < entries.len()
            invariant
                k <= entries.len(),
                views == texts(entries@),
                texts(out@) == first_occurrences(taken, views.take(k as int)),
            decreases entries.len() - k,
        {
            proof {
                assert(views.take(k + 1).drop_last() =~= views.take(k as int));
                assert(views.take(k + 1).last() == entries@[k as int]@);
            }
            if !holds(&out, entries[k].as_str()) {
                let entry = entries[k].clone();
                proof {
                    lemma_texts_push(out@, entry);
                }
                out.push(entry);
            }
            k += 1;
        }
        assert(views.take(k as int) =~= views);
        i += 1;
    }
    assert(modules.take(i as int) =~= modules);
    out
}

proof fn lemma_first_occurrences(taken: Seq<Seq<char>>, entries: Seq<Seq<char>>)
    requires
        taken.no_duplicates(),
    ensures
        first_occurrences(taken, entries).no_duplicates(),
        forall|e: Seq<char>|
            first_occurrences(taken, entries).contains(e) <==> taken.contains(e)
                || entries.contains(e),
    decreases entries.len(),
{
    if entries.len() > 0 {
        lemma_first_occurrences(taken, entries.drop_last());
        let before = first_occurrences(taken, entries.drop_last());
        let now = first_occurrences(taken, entries);
        let last = entries.last();
        assert forall|e: Seq<char>| now.contains(e) <==> taken.contains(e) || entries.contains(
            e,
        ) by {
            assert(entries.contains(e) <==> entries.drop_last().contains(e) || e == last) by {
                if entries.contains(e) {
                    let k = choose|k: int| 0 <= k < entries.len() && entries[k] == e;
                    if k < entries.len() - 1 {
                        assert(entries.drop_last()[k] == e);
                    }
                }
                if entries.drop_last().contains(e) {
                    let k = choose|k: int|
                        0 <= k < entries.drop_last().len() && entries.drop_last()[k] == e;
                    assert(entries[k] == e);
                }
                assert(entries[entries.len() - 1] == last);
            }
            if !before.contains(last) {
                if before.contains(e) {
                    let k = choose|k: int| 0 <= k < before.len() && before[k] == e;
                    assert(now[k] == e);
                }
                if e == last {
                    assert(now[before.len() as int] == e);
                }
                if now.contains(e) {
                    let k = choose|k: int| 0 <= k < now.len() && now[k] == e;
                    if k < before.len() {
                        assert(before[k] == e);
                    }
                }
            }
        }
    }
}

/// Every entry of every module's classpath shows once, and nothing else does.
pub proof fn law_classpath_has_every_entry_once(modules: Seq<ModuleView>)
    ensures
        classpath_of(modules).no_duplicates(),
        forall|e: Seq<char>|
            classpath_of(modules).contains(e) <==> exists|i: int|
                0 <= i < modules.len() && (#[trigger] modules[i]).classpath.contains(e),
    decreases modules.len(),
{
    if modules.len() > 0 {
        let before = modules.drop_last();
        law_classpath_has_every_entry_once(before);
        lemma_first_occurrences(classpath_of(before), modules.last().classpath);
        assert forall|e: Seq<char>| classpath_of(modules).contains(e) <==> exists|i: int|
            0 <= i < modules.len() && (#[trigger] modules[i]).classpath.contains(e) by {
            if exists|i: int| 0 <= i < modules.len() && (#[trigger] modules[i]).classpath.contains(
                e,
            ) {
                let i = choose|i: int|
                    0 <= i < modules.len() && (#[trigger] modules[i]).classpath.contains(e);
                if i < before.len() {
                    assert(before[i].classpath.contains(e));
                }
            }
            if classpath_of(before).contains(e) {
                let i = choose|i: int|
                    0 <= i < before.len() && (#[trigger] before[i]).classpath.contains(e);
                assert(modules[i].classpath.contains(e));
            }
            if modules.last().classpath.contains(e) {
                assert(modules[modules.len() - 1].classpath.contains(e));
            }
        }
    }
}

/// A file belongs to the module with the longest of all the source directories
/// that hold it, and to none where no source directory holds it.
pub proof fn law_a_file_belongs_to_the_longest_source_dir(
    modules: Seq<ModuleView>,
    i: int,
    file: Seq<char>,
    j: int,
    k: int,
)
    requires
        owns_file(modules, i, file),
    ensures
        exists|m: int|
            0 <= m < modules[i].source_dirs.len() && lies_in(
                file,
                #[trigger] modules[i].source_dirs[m],
            ),
        0 <= j < modules.len() && 0 <= k < modules[j].source_dirs.len() && lies_in(
            file,
            modules[j].source_dirs[k],
        ) ==> exists|m: int|
            0 <= m < modules[i].source_dirs.len() && lies_in(
                file,
                #[trigger] modules[i].source_dirs[m],
            ) && byte_len(modules[i].source_dirs[m]) >= byte_len(modules[j].source_dirs[k]),
{
    lemma_longest_match(modules[i].source_dirs, file);
    if 0 <= j < modules.len() && 0 <= k < modules[j].source_dirs.len() && lies_in(
        file,
        modules[j].source_dirs[k],
    ) {
        lemma_longest_match(modules[j].source_dirs, file);
    }
}

/// A file that a source directory holds belongs to a module.
pub proof fn law_what_a_source_dir_holds_belongs_to_a_module(
    modules: Seq<ModuleView>,
    file: Seq<char>,
    j: int,
    k: int,
)
    requires
        0 <= j < modules.len(),
        0 <= k < modules[j].source_dirs.len(),
        lies_in(file, modules[j].source_dirs[k]),
    ensures
        longest_match(modules[j].source_dirs, file) >= 0,
        longest_match(modules[j].source_dirs, file) != -1,
{
    lemma_longest_match(modules[j].source_dirs, file);
}

proof fn lemma_longest_match(dirs: Seq<Seq<char>>, file: Seq<char>)
    ensures
        longest_match(dirs, file) >= 0 ==> exists|m: int|
            0 <= m < dirs.len() && lies_in(file, #[trigger] dirs[m]) && longest_match(dirs, file)
                == byte_len(dirs[m]),
        forall|k: int|
            0 <= k < dirs.len() && lies_in(file, #[trigger] dirs[k]) ==> longest_match(dirs, file)
                >= byte_len(dirs[k]),
        longest_match(dirs, file) >= -1,
    decreases dirs.len(),
{
    if dirs.len() > 0 {
        let fewer = dirs.drop_last();
        lemma_longest_match(fewer, file);
        let last = dirs.len() - 1;
        assert(dirs[last] == dirs.last());
        assert forall|k: int| 0 <= k < dirs.len() && lies_in(
            file,
            #[trigger] dirs[k],
        ) implies longest_match(dirs, file) >= byte_len(dirs[k]) by {
            if k < last {
                assert(fewer[k] == dirs[k]);
            }
        }
        if longest_match(dirs, file) >= 0 && longest_match(dirs, file) == longest_match(
            fewer,
            file,
        ) {
            let m = choose|m: int|
                0 <= m < fewer.len() && lies_in(file, #[trigger] fewer[m]) && longest_match(
                    fewer,
                    file,
                ) == byte_len(fewer[m]);
            assert(dirs[m] == fewer[m]);
        }
    }
}

} // verus!
