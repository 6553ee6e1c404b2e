//! The documents that the editor has open.

use crate::keyed_list::{by_key, distinct, lemma_insert, lemma_place, lemma_remove, lemma_set};
use crate::protocol::{
    ChangeView, Diagnostic, TextDocumentContentChangeEvent, Uri, change_views, diagnostic_views,
};
use crate::syntax::{
    SyntaxTree, SyntaxTreeView, changed, changed_text, diagnostics_of, fresh_tree, java_nodes,
};
use crate::text::same_text;
use vstd::prelude::*;

verus! {

struct OpenDocument {
    uri: Uri,
    tree: SyntaxTree,
}

/// The open documents, each with its text and syntax tree.
pub struct DocumentStore {
    documents: Vec<OpenDocument>,
}

type Documents = Seq<(Seq<char>, SyntaxTreeView)>;

spec fn document_views(list: Seq<OpenDocument>) -> Documents {
    list.map_values(|d: OpenDocument| (d.uri@, d.tree@))
}

/// The text behind a list of changes, one after the other.
pub open spec fn text_after(s: Seq<char>, changes: Seq<ChangeView>) -> Seq<char>
    decreases changes.len(),
{
    if changes.len() == 0 {
        s
    } else {
        changed_text(
            text_after(s, changes.drop_last()),
            changes.last().range,
            changes.last().text,
        )
    }
}

/// A document behind a list of changes, one after the other.
pub open spec fn changed_by(tree: SyntaxTreeView, changes: Seq<ChangeView>) -> SyntaxTreeView
    decreases changes.len(),
{
    if changes.len() == 0 {
        tree
    } else {
        changed(changed_by(tree, changes.drop_last()), changes.last())
    }
}

impl View for DocumentStore {
    type V = Map<Seq<char>, SyntaxTreeView>;

    closed spec fn view(&self) -> Map<Seq<char>, SyntaxTreeView> {
        by_key(document_views(self.documents@))
    }
}

impl DocumentStore {
    /// Whether no document is open twice.
    pub closed spec fn wf(&self) -> bool {
        distinct(document_views(self.documents@))
    }

    pub fn new() -> (r: Self)
        ensures
            r.wf(),
            r@ == Map::<Seq<char>, SyntaxTreeView>::empty(),
    {
        let r = Self { documents: Vec::new() };
        assert(document_views(r.documents@) =~= Seq::empty());
        assert(r@ =~= Map::empty());
        r
    }

    fn find(&self, uri: &Uri) -> (r: Option<usize>)
        requires
            self.wf(),
        ensures
            match r {
                Some(i) => i < self.documents@.len() && self.documents@[i as int].uri@ == uri@
                    && self@.contains_key(uri@) && self@[uri@] == self.documents@[i as int].tree@,
                None => !self@.contains_key(uri@),
            },
    {
        let ghost d = document_views(self.documents@);
        let mut i: usize = 0;
        while i < self.documents.len()
            invariant
                i <= self.documents.len(),
                self.wf(),
                d == document_views(self.documents@),
                forall|k: int| 0 <= k < i ==> (#[trigger] d[k]).0 != uri@,
            decreases self.documents.len() - i,
        {
            assert(d[i as int].0 == self.documents@[i as int].uri@);
            if same_text(self.documents[i].uri.as_str(), uri.as_str()) {
                proof {
                    lemma_place(d, i as int);
                }
                return Some(i);
            }
            i += 1;
        }
        None
    }

    /// Opens a document, in place of an earlier one of that name, and returns
    /// its diagnostics.
    pub fn open(&mut self, uri: Uri, text: &str) -> (r: Vec<Diagnostic>)
        requires
            old(self).wf(),
        ensures
            final(self).wf(),
            final(self)@ == old(self)@.insert(
                uri@,
                fresh_tree(text@),
            ),
            diagnostic_views(r@) == diagnostics_of(java_nodes(text@), text@),
    {
        let ghost d = document_views(self.documents@);
        let tree = SyntaxTree::parse(text);
        let diagnostics = tree.diagnostics();
        let ghost view = (uri@, tree@);
        match self.find(&uri) {
            Some(i) => {
                let ghost at = i as int;
                assert(d[at].0 == uri@);
                self.documents.set(i, OpenDocument { uri, tree });
                proof {
                    assert(document_views(self.documents@) =~= d.update(at, view));
                    lemma_set(d, at, view.1);
                }
            },
            None => {
                self.documents.push(OpenDocument { uri, tree });
                proof {
                    let end = d.len() as int;
                    assert(document_views(self.documents@) =~= d.insert(end, view));
                    lemma_insert(d, end, view.0, view.1);
                }
            },
        }
        diagnostics
    }

    /// Applies changes to an open document, in their order, and returns its
    /// diagnostics; a document that is not open is left alone.
    pub fn change(
        &mut self,
        uri: &Uri,
        changes: &Vec<TextDocumentContentChangeEvent>,
    ) -> (r: Vec<Diagnostic>)
        requires
            old(self).wf(),
        ensures
            final(self).wf(),
            if old(self)@.contains_key(uri@) {
                let tree = changed_by(old(self)@[uri@], change_views(changes@));
                final(self)@ == old(self)@.insert(uri@, tree) && diagnostic_views(r@)
                    == diagnostics_of(tree.nodes, tree.source)
            } else {
                final(self)@ == old(self)@ && r@.len() == 0
            },
    {
        let ghost d = document_views(self.documents@);
        match self.find(uri) {
            None => Vec::new(),
            Some(at) => {
                let ghost before = self.documents@[at as int].tree@;
                let ghost views = change_views(changes@);
                let mut i: usize = 0;
                assert(views.take(0) =~= Seq::empty());
                assert(d[at as int] == (uri@, before));
                assert(document_views(self.documents@) =~= d.update(at as int, (uri@, before)));
                while i < changes.len()
                    invariant
                        i <= changes.len(),
                        views == change_views(changes@),
                        at < self.documents@.len(),
                        d.len() == self.documents@.len(),
                        document_views(self.documents@) == d.update(
                            at as int,
                            (uri@, self.documents@[at as int].tree@),
                        ),
                        self.documents@[at as int].tree@ == changed_by(
                            before,
                            views.take(i as int),
                        ),
                    decreases changes.len() - i,
                {
                    let ghost prev = self.documents@;
                    self.documents[at].tree.edit(&changes[i]);
                    proof {
                        assert forall|k: int| 0 <= k < prev.len() implies document_views(prev)[k]
                            == (#[trigger] prev[k].uri@, prev[k].tree@) by {}
                        assert(document_views(prev)[at as int].0 == uri@);
                        assert(self.documents@[at as int].uri == prev[at as int].uri);
                        assert(views.take(i + 1).drop_last() =~= views.take(i as int));
                        assert(views.take(i + 1).last() == changes@[i as int]@);
                        assert(document_views(self.documents@) =~= d.update(
                            at as int,
                            (uri@, self.documents@[at as int].tree@),
                        ));
                    }
                    i += 1;
                }
                proof {
                    assert(views.take(i as int) =~= views);
                    lemma_set(d, at as int, self.documents@[at as int].tree@);
                }
                self.documents[at].tree.diagnostics()
            },
        }
    }

    /// Closes a document.
    pub fn close(&mut self, uri: &Uri)
        requires
            old(self).wf(),
        ensures
            final(self).wf(),
            final(self)@ == old(self)@.remove(uri@),
    {
        let ghost d = document_views(self.documents@);
        match self.find(uri) {
            Some(i) => {
                let ghost at = i as int;
                assert(d[at].0 == uri@);
                self.documents.remove(i);
                proof {
                    assert(document_views(self.documents@) =~= d.remove(at));
                    lemma_remove(d, at);
                }
            },
            None => {
                assert(self@ =~= self@.remove(uri@));
            },
        }
    }

    /// An open document.
    pub fn document(&self, uri: &Uri) -> (r: Option<&SyntaxTree>)
        requires
            self.wf(),
        ensures
            match r {
                Some(tree) => self@.contains_key(uri@) && tree@ == self@[uri@],
                None => !self@.contains_key(uri@),
            },
    {
        match self.find(uri) {
            Some(i) => Some(&self.documents[i].tree),
            None => None,
        }
    }
}

// ---------------------------------------------------------------------------
// Laws
// ---------------------------------------------------------------------------

/// Changes that come one after the other have the effect of one list of them.
pub proof fn law_changes_apply_in_order(
    s: Seq<char>,
    first: Seq<ChangeView>,
    second: Seq<ChangeView>,
)
    ensures
        text_after(text_after(s, first), second) == text_after(s, first + second),
    decreases second.len(),
{
    if second.len() == 0 {
        assert(first + second =~= first);
    } else {
        law_changes_apply_in_order(s, first, second.drop_last());
        assert((first + second).drop_last() =~= first + second.drop_last());
        assert((first + second).last() == second.last());
    }
}

/// The text of a document behind changes is the changed text.
pub proof fn law_changes_change_the_text(tree: SyntaxTreeView, changes: Seq<ChangeView>)
    ensures
        changed_by(tree, changes).source == text_after(tree.source, changes),
    decreases changes.len(),
{
    if changes.len() > 0 {
        law_changes_change_the_text(tree, changes.drop_last());
    }
}

/// A change of the whole text makes all changes before it moot.
pub proof fn law_full_change_sets_the_text(s: Seq<char>, changes: Seq<ChangeView>)
    requires
        changes.len() > 0,
        changes.last().range is None,
    ensures
        text_after(s, changes) == changes.last().text,
        forall|tree: SyntaxTreeView|
            #[trigger] changed_by(tree, changes) == fresh_tree(changes.last().text),
{
}

} // verus!
