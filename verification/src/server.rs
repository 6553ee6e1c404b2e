//! The server: what requests are answered, and what notifications lead to. Work
//! that takes time is handed out as tasks, to be carried out in the background
//! in any order.

use crate::classfile::{ClassFile, ClassFileError, ClassFileView, class_file, parse};
use crate::completion::{completed, completion, items_view};
use crate::documents::{DocumentStore, changed_by};
use crate::goto_definition::{definitions, goto_definition};
use crate::handshake::{
    ExitAction, Handshake, State, exit_action, handled, law_responses_carry_the_request_id,
};
use crate::hover::{hover, hover_view, hovered};
use crate::javac_compile::{find_lombok_jar, is_lombok_jar, output_dir, output_dir_for_module};
use crate::jsonrpc::{
    INVALID_PARAMS, Json, Notification, OutgoingNotification, OutgoingView, Request, Response,
    ResponseView, error_response, outgoing_views, success_response,
};
use crate::lombok::{
    Overrides, content_hash, declared_package, document_uses_lombok, hash_of, override_views,
    overrides, source_package, stub_symbol_overrides, uses_lombok,
};
use crate::params::{
    DidChangeParams, DidChangeView, DidOpenParams, DidOpenView, InitializeParams, InitializeView,
    completion_params, definition_params, did_change_params, did_change_view, did_close_params,
    did_open_params, did_open_view, did_save_params, fits, hover_params, initialize_params,
    read_completion_params, read_definition_params, read_did_change_params, read_did_close_params,
    read_did_open_params, read_did_save_params, read_hover_params, read_initialize_params, uri_view,
};
use crate::path::{file_stem, join_path, joined_path, stem_of};
use crate::project_model::{ModuleModel, ProjectModel, longest_match, owns_file};
use crate::protocol::{
    CompletionItemView, Diagnostic, DiagnosticView, HoverView, TextDocumentPosition,
    TextDocumentPositionView, Uri, diagnostic_views,
};
use crate::protocol_json::{
    hover_json, hover_to_json, items_json, items_to_json, locations_json, locations_to_json,
    published_json, published_to_json,
};
use crate::symbol::{document_symbols, extract_symbols};
use crate::syntax::{SyntaxTreeView, diagnostics_of, fresh_tree, java_nodes, tree_nodes};
use crate::syntax_node::NodeView;
use crate::text::{opt_text, replace_range, replaced, same_text, to_chars};
use crate::workspace_index::{FileUpdate, IndexView, UpdateView, WorkspaceIndex, is_stale};
use crate::workspace_scan::{max_uri_len, path_of_uri, path_to_uri, uri_of_path, uri_to_path};
use tree_sitter::Tree;
use vstd::hash_map::StringHashMap;
use vstd::prelude::*;
use vstd::string::*;
use vstd::utf8::encode_utf8;

verus! {

// ---------------------------------------------------------------------------
// Tasks
// ---------------------------------------------------------------------------

/// Work to be done in the background.
pub enum Task {
    /// Index a document as it was at a version.
    Reindex { uri: Uri, generation: u64, version: i32, source: String, tree: Tree },
    /// Compile a document that uses Lombok.
    CompileLombok { path: String, source: String, tree: Tree },
    /// Index every source file of the workspace.
    ScanWorkspace { root: String },
    /// Resolve the project model by the workspace's build tool.
    ResolveBuild { root: String },
}

/// What a [`Task`] says, as mathematical values.
pub enum TaskView {
    Reindex {
        uri: Seq<char>,
        generation: u64,
        version: i32,
        source: Seq<char>,
        nodes: Seq<NodeView>,
    },
    CompileLombok { path: Seq<char>, source: Seq<char>, nodes: Seq<NodeView> },
    ScanWorkspace { root: Seq<char> },
    ResolveBuild { root: Seq<char> },
}

impl View for Task {
    type V = TaskView;

    open spec fn view(&self) -> TaskView {
        match self {
            Task::Reindex { uri, generation, version, source, tree } => TaskView::Reindex {
                uri: uri@,
                generation: *generation,
                version: *version,
                source: source@,
                nodes: tree_nodes(*tree),
            },
            Task::CompileLombok { path, source, tree } => TaskView::CompileLombok {
                path: path@,
                source: source@,
                nodes: tree_nodes(*tree),
            },
            Task::ScanWorkspace { root } => TaskView::ScanWorkspace { root: root@ },
            Task::ResolveBuild { root } => TaskView::ResolveBuild { root: root@ },
        }
    }
}

/// The tasks of a list, as mathematical values.
pub open spec fn task_views(list: Seq<Task>) -> Seq<TaskView> {
    list.map_values(|t: Task| t@)
}

// ---------------------------------------------------------------------------
// The model
// ---------------------------------------------------------------------------

/// What a [`Server`] holds, as mathematical values.
pub struct ServerView {
    pub state: State,
    pub documents: Map<Seq<char>, SyntaxTreeView>,
    pub root: Option<Seq<char>>,
    pub generation: u64,
    pub generations: Map<Seq<char>, u64>,
    pub hashes: Map<Seq<char>, u64>,
}

/// The workspace's root: its first folder, else its root URI.
pub open spec fn root_of(params: Option<InitializeView>) -> Option<Seq<char>> {
    match params {
        Some(p) => if p.folders is Some && p.folders->0.len() > 0 {
            Some(p.folders->0[0])
        } else {
            p.root
        },
        None => None,
    }
}

/// Whether a method is one of the features that the server offers.
pub open spec fn is_feature(method: Seq<char>) -> bool {
    method == "textDocument/definition"@ || method == "textDocument/hover"@ || method
        == "textDocument/completion"@
}

/// The response to parameters that cannot be read.
pub open spec fn invalid_params(id: Seq<char>, error: Seq<char>) -> ResponseView {
    error_response(id, INVALID_PARAMS, "invalid params: "@ + error)
}

/// Whether a response is the answer to a definition request.
pub open spec fn definition_answered(
    documents: Map<Seq<char>, SyntaxTreeView>,
    index: IndexView,
    id: Seq<char>,
    params: Result<TextDocumentPositionView, Seq<char>>,
    response: ResponseView,
) -> bool {
    match params {
        Err(e) => response == invalid_params(id, e),
        Ok(at) => response == success_response(
            id,
            match definitions(index, documents, at.uri, at.position) {
                Some(list) => locations_json(list),
                None => "null"@,
            },
        ),
    }
}

/// The response that shows a hover.
pub open spec fn hover_response(id: Seq<char>, h: Option<HoverView>) -> ResponseView {
    success_response(
        id,
        match h {
            Some(shown) => hover_json(shown),
            None => "null"@,
        },
    )
}

/// Whether a response is the answer to a hover request.
pub open spec fn hover_answered(
    documents: Map<Seq<char>, SyntaxTreeView>,
    index: IndexView,
    id: Seq<char>,
    params: Result<TextDocumentPositionView, Seq<char>>,
    response: ResponseView,
) -> bool {
    match params {
        Err(e) => response == invalid_params(id, e),
        Ok(at) => exists|h: Option<HoverView>|
            response == #[trigger] hover_response(id, h) && hovered(index, documents, at, h),
    }
}

/// The response that offers completion items.
pub open spec fn completion_response(
    id: Seq<char>,
    items: Option<Seq<CompletionItemView>>,
) -> ResponseView {
    success_response(
        id,
        match items {
            Some(list) => items_json(list),
            None => "null"@,
        },
    )
}

/// Whether a response is the answer to a completion request.
pub open spec fn completion_answered(
    documents: Map<Seq<char>, SyntaxTreeView>,
    index: IndexView,
    id: Seq<char>,
    params: Result<TextDocumentPositionView, Seq<char>>,
    response: ResponseView,
) -> bool {
    match params {
        Err(e) => response == invalid_params(id, e),
        Ok(at) => exists|items: Option<Seq<CompletionItemView>>|
            response == #[trigger] completion_response(id, items) && completed(
                index,
                documents,
                at,
                items,
            ),
    }
}

/// Whether a response is the answer to a feature's request.
pub open spec fn answered(
    server: ServerView,
    index: IndexView,
    id: Seq<char>,
    method: Seq<char>,
    params: Seq<char>,
    response: ResponseView,
) -> bool {
    if method == "textDocument/definition"@ {
        definition_answered(server.documents, index, id, definition_params(params), response)
    } else if method == "textDocument/hover"@ {
        hover_answered(server.documents, index, id, hover_params(params), response)
    } else {
        completion_answered(server.documents, index, id, completion_params(params), response)
    }
}

/// Whether a server and its response follow from a request. The features are
/// answered from the documents and the index; any other method, and a feature
/// that is asked for too early or too late, is up to the handshake. Whatever
/// comes of it, `initialize` says where the workspace is.
pub open spec fn requested(
    before: ServerView,
    after: ServerView,
    index: IndexView,
    id: Seq<char>,
    method: Seq<char>,
    params: Seq<char>,
    response: ResponseView,
) -> bool {
    &&& after == (ServerView {
        state: after.state,
        root: if method == "initialize"@ {
            root_of(initialize_params(params))
        } else {
            before.root
        },
        ..before
    })
    &&& if before.state == State::Initialized && is_feature(method) {
        after.state == before.state && answered(before, index, id, method, params, response)
    } else {
        (after.state, response) == handled(before.state, id, method)
    }
}

/// The next generation; the counter stays where it can count no further.
pub open spec fn next_generation(g: u64) -> u64 {
    if g < u64::MAX {
        (g + 1) as u64
    } else {
        g
    }
}

/// The task to index a document, where it is open.
pub open spec fn reindex_tasks(
    documents: Map<Seq<char>, SyntaxTreeView>,
    uri: Seq<char>,
    generation: u64,
    version: i32,
) -> Seq<TaskView> {
    if documents.contains_key(uri) {
        seq![
            TaskView::Reindex {
                uri,
                generation,
                version,
                source: documents[uri].source,
                nodes: documents[uri].nodes,
            },
        ]
    } else {
        Seq::empty()
    }
}

/// Whether a document is to be compiled for Lombok: it is open, uses Lombok,
/// and is not what it last was compiled as.
pub open spec fn needs_lombok(
    documents: Map<Seq<char>, SyntaxTreeView>,
    hashes: Map<Seq<char>, u64>,
    uri: Seq<char>,
) -> bool {
    &&& documents.contains_key(uri)
    &&& document_uses_lombok(documents[uri].nodes, documents[uri].source)
    &&& !(hashes.contains_key(uri) && hashes[uri] == hash_of(documents[uri].source))
}

/// What documents were last compiled as, once one is checked for Lombok.
pub open spec fn lombok_hashes(
    documents: Map<Seq<char>, SyntaxTreeView>,
    hashes: Map<Seq<char>, u64>,
    uri: Seq<char>,
) -> Map<Seq<char>, u64> {
    if needs_lombok(documents, hashes, uri) {
        hashes.insert(uri, hash_of(documents[uri].source))
    } else {
        hashes
    }
}

/// The task to compile a document for Lombok, where it is needed and the
/// document is a file.
pub open spec fn lombok_tasks(
    documents: Map<Seq<char>, SyntaxTreeView>,
    hashes: Map<Seq<char>, u64>,
    uri: Seq<char>,
) -> Seq<TaskView> {
    if needs_lombok(documents, hashes, uri) && path_of_uri(uri) is Some {
        seq![
            TaskView::CompileLombok {
                path: path_of_uri(uri)->0,
                source: documents[uri].source,
                nodes: documents[uri].nodes,
            },
        ]
    } else {
        Seq::empty()
    }
}

/// The notification that publishes a document's diagnostics.
pub open spec fn publication(uri: Seq<char>, diagnostics: Seq<DiagnosticView>) -> OutgoingView {
    OutgoingView {
        method: "textDocument/publishDiagnostics"@,
        params: published_json(uri, diagnostics),
    }
}

/// Whether a server, what it sends and its tasks follow from a document being
/// opened.
pub open spec fn after_open(
    before: ServerView,
    after: ServerView,
    params: Option<DidOpenView>,
    sent: Seq<OutgoingView>,
    tasks: Seq<TaskView>,
) -> bool {
    match params {
        None => after == before && sent.len() == 0 && tasks.len() == 0,
        Some(p) => {
            let generation = next_generation(before.generation);
            let documents = before.documents.insert(
                p.uri,
                fresh_tree(p.text),
            );
            &&& after == (ServerView {
                documents,
                generation,
                generations: before.generations.insert(p.uri, generation),
                hashes: lombok_hashes(documents, before.hashes, p.uri),
                ..before
            })
            &&& sent == seq![publication(p.uri, diagnostics_of(java_nodes(p.text), p.text))]
            &&& tasks == reindex_tasks(documents, p.uri, generation, p.version) + lombok_tasks(
                documents,
                before.hashes,
                p.uri,
            )
        },
    }
}

/// Whether a server, what it sends and its tasks follow from a document being
/// changed. A document that is not open stays so.
pub open spec fn after_change(
    before: ServerView,
    after: ServerView,
    params: Option<DidChangeView>,
    sent: Seq<OutgoingView>,
    tasks: Seq<TaskView>,
) -> bool {
    match params {
        None => after == before && sent.len() == 0 && tasks.len() == 0,
        Some(p) => {
            let generation = if before.generations.contains_key(p.uri) {
                before.generations[p.uri]
            } else {
                0
            };
            let documents = if before.documents.contains_key(p.uri) {
                before.documents.insert(p.uri, changed_by(before.documents[p.uri], p.changes))
            } else {
                before.documents
            };
            &&& after == (ServerView { documents, ..before })
            &&& sent == seq![
                publication(
                    p.uri,
                    if documents.contains_key(p.uri) {
                        diagnostics_of(documents[p.uri].nodes, documents[p.uri].source)
                    } else {
                        Seq::empty()
                    },
                ),
            ]
            &&& tasks == reindex_tasks(documents, p.uri, generation, p.version)
        },
    }
}

/// Whether a server, what it sends and its tasks follow from a document being
/// closed.
pub open spec fn after_close(
    before: ServerView,
    after: ServerView,
    params: Option<Seq<char>>,
    sent: Seq<OutgoingView>,
    tasks: Seq<TaskView>,
) -> bool {
    tasks.len() == 0 && match params {
        None => after == before && sent.len() == 0,
        Some(uri) => after == (ServerView { documents: before.documents.remove(uri), ..before })
            && sent == seq![publication(uri, Seq::empty())],
    }
}

/// Whether a server, what it sends and its tasks follow from a document being
/// saved.
pub open spec fn after_save(
    before: ServerView,
    after: ServerView,
    params: Option<Seq<char>>,
    sent: Seq<OutgoingView>,
    tasks: Seq<TaskView>,
) -> bool {
    sent.len() == 0 && match params {
        None => after == before && tasks.len() == 0,
        Some(uri) => after == (ServerView {
            hashes: lombok_hashes(before.documents, before.hashes, uri),
            ..before
        }) && tasks == lombok_tasks(before.documents, before.hashes, uri),
    }
}

/// The tasks that a session starts with, where its root is a directory.
pub open spec fn startup_tasks(root: Option<Seq<char>>) -> Seq<TaskView> {
    if root is Some && path_of_uri(root->0) is Some {
        let path = path_of_uri(root->0)->0;
        seq![TaskView::ScanWorkspace { root: path }, TaskView::ResolveBuild { root: path }]
    } else {
        Seq::empty()
    }
}

/// Whether a server, what it asks of the process, what it sends and its tasks
/// follow from a notification.
pub open spec fn notified(
    before: ServerView,
    after: ServerView,
    method: Seq<char>,
    params: Seq<char>,
    action: ExitAction,
    sent: Seq<OutgoingView>,
    tasks: Seq<TaskView>,
) -> bool {
    if before.state == State::Initialized && method == "textDocument/didOpen"@ {
        action == ExitAction::Continue && after_open(
            before,
            after,
            did_open_params(params),
            sent,
            tasks,
        )
    } else if before.state == State::Initialized && method == "textDocument/didChange"@ {
        action == ExitAction::Continue && after_change(
            before,
            after,
            did_change_params(params),
            sent,
            tasks,
        )
    } else if before.state == State::Initialized && method == "textDocument/didClose"@ {
        action == ExitAction::Continue && after_close(
            before,
            after,
            did_close_params(params),
            sent,
            tasks,
        )
    } else if before.state == State::Initialized && method == "textDocument/didSave"@ {
        action == ExitAction::Continue && after_save(
            before,
            after,
            did_save_params(params),
            sent,
            tasks,
        )
    } else if before.state == State::Initialized && method == "initialized"@ {
        action == ExitAction::Continue && after == before && sent.len() == 0 && tasks
            == startup_tasks(before.root)
    } else {
        action == exit_action(before.state, method) && after == before && sent.len() == 0
            && tasks.len() == 0
    }
}

// ---------------------------------------------------------------------------
// The server
// ---------------------------------------------------------------------------

pub struct Server {
    handshake: Handshake,
    documents: DocumentStore,
    workspace_root: Option<Uri>,
    /// Bumped on every `didOpen`, independent of the client-supplied version.
    next_generation: u64,
    document_generations: StringHashMap<u64>,
    /// The content hash last used to trigger a Lombok recompile for a given
    /// document: skips a redundant recompile on a save/open with byte-identical
    /// content.
    lombok_source_hashes: StringHashMap<u64>,
}

/// What came of a notification: what is asked of the process, what is to be
/// sent, and what is to be done in the background.
pub struct Outcome {
    pub action: ExitAction,
    pub sent: Vec<OutgoingNotification>,
    pub tasks: Vec<Task>,
}

impl Outcome {
    /// Nothing came of a notification.
    fn nothing() -> (r: Self)
        ensures
            r.action == ExitAction::Continue,
            outgoing_views(r.sent@) == Seq::<OutgoingView>::empty(),
            task_views(r.tasks@) == Seq::<TaskView>::empty(),
    {
        let r = Outcome { action: ExitAction::Continue, sent: Vec::new(), tasks: Vec::new() };
        assert(outgoing_views(r.sent@) =~= Seq::empty());
        assert(task_views(r.tasks@) =~= Seq::empty());
        r
    }
}

impl View for Server {
    type V = ServerView;

    closed spec fn view(&self) -> ServerView {
        ServerView {
            state: self.handshake@,
            documents: self.documents@,
            root: uri_view(self.workspace_root),
            generation: self.next_generation,
            generations: self.document_generations@,
            hashes: self.lombok_source_hashes@,
        }
    }
}

fn publish_diagnostics_notification(uri: &Uri, diagnostics: &Vec<Diagnostic>) -> (r:
    OutgoingNotification)
    ensures
        r@ == publication(uri@, diagnostic_views(diagnostics@)),
{
    OutgoingNotification::new(
        "textDocument/publishDiagnostics",
        published_to_json(uri, diagnostics),
    )
}

/// The workspace's root: its first folder, else its root URI.
pub fn workspace_root(params: Option<InitializeParams>) -> (r: Option<Uri>)
    ensures
        uri_view(r) == root_of(
            match params {
                Some(p) => Some(p@),
                None => None,
            },
        ),
{
    match params {
        Some(p) => {
            if let Some(folders) = &p.folders {
                if folders.len() > 0 {
                    return Some(folders[0].clone());
                }
            }
            p.root
        },
        None => None,
    }
}

fn invalid_params_response(id: Json, error: &str) -> (r: Response)
    ensures
        r@ == invalid_params(id@, error@),
{
    let mut message = "invalid params: ".to_owned();
    message.append(error);
    Response::error(id, INVALID_PARAMS, message.as_str())
}

/// The answer to a definition request with these parameters.
pub fn answer_definition(
    index: &WorkspaceIndex,
    documents: &DocumentStore,
    id: Json,
    params: Result<TextDocumentPosition, String>,
) -> (r: Response)
    requires
        index.wf(),
        documents.wf(),
    ensures
        definition_answered(
            documents@,
            index@,
            id@,
            crate::params::position_result(params),
            r@,
        ),
{
    match params {
        Err(error) => invalid_params_response(id, error.as_str()),
        Ok(at) => match goto_definition(index, documents, &at) {
            Some(locations) => Response::success(id, locations_to_json(&locations)),
            None => Response::success(id, Json::null()),
        },
    }
}

/// The answer to a hover request with these parameters.
pub fn answer_hover(
    index: &WorkspaceIndex,
    documents: &DocumentStore,
    id: Json,
    params: Result<TextDocumentPosition, String>,
) -> (r: Response)
    requires
        index.wf(),
        documents.wf(),
    ensures
        hover_answered(documents@, index@, id@, crate::params::position_result(params), r@),
{
    match params {
        Err(error) => invalid_params_response(id, error.as_str()),
        Ok(at) => {
            let shown = hover(index, documents, &at);
            let ghost view = hover_view(shown);
            assert(hovered(index@, documents@, at@, view));
            let result = match shown {
                Some(h) => hover_to_json(&h),
                None => Json::null(),
            };
            let response = Response::success(id, result);
            assert(response@ == hover_response(id@, view));
            response
        },
    }
}

/// The answer to a completion request with these parameters.
pub fn answer_completion(
    index: &WorkspaceIndex,
    documents: &DocumentStore,
    id: Json,
    params: Result<TextDocumentPosition, String>,
) -> (r: Response)
    requires
        index.wf(),
        documents.wf(),
    ensures
        completion_answered(documents@, index@, id@, crate::params::position_result(params), r@),
{
    match params {
        Err(error) => invalid_params_response(id, error.as_str()),
        Ok(at) => {
            let items = completion(index, documents, &at);
            let ghost view = items_view(items);
            assert(completed(index@, documents@, at@, view));
            let result = match items {
                Some(list) => items_to_json(&list),
                None => Json::null(),
            };
            let response = Response::success(id, result);
            assert(response@ == completion_response(id@, view));
            response
        },
    }
}

impl Server {
    /// Whether what the server holds is well formed.
    pub closed spec fn wf(&self) -> bool {
        self.documents.wf()
    }

    pub fn new() -> (r: Self)
        ensures
            r.wf(),
            r@ == (ServerView {
                state: State::Uninitialized,
                documents: Map::empty(),
                root: None,
                generation: 0,
                generations: Map::empty(),
                hashes: Map::empty(),
            }),
    {
        Self {
            handshake: Handshake::new(),
            documents: DocumentStore::new(),
            workspace_root: None,
            next_generation: 0,
            document_generations: StringHashMap::new(),
            lombok_source_hashes: StringHashMap::new(),
        }
    }

    /// Answers a request. The features answer from the open documents and the
    /// index as it is, whatever tasks are still under way.
    pub fn handle_request(&mut self, request: &Request, index: &WorkspaceIndex) -> (r: Response)
        requires
            old(self).wf(),
            index.wf(),
            fits(request.params@),
        ensures
            final(self).wf(),
            requested(
                old(self)@,
                final(self)@,
                index@,
                request.id@,
                request.method@,
                request.params@,
                r@,
            ),
    {
        let method = request.method.as_str();
        let params = request.params.text.as_str();
        proof {
            reveal_strlit("initialize");
            reveal_strlit("textDocument/definition");
            reveal_strlit("textDocument/hover");
            reveal_strlit("textDocument/completion");
            assert("initialize"@.len() != "textDocument/definition"@.len());
            assert("initialize"@.len() != "textDocument/hover"@.len());
            assert("initialize"@.len() != "textDocument/completion"@.len());
        }
        if same_text(method, "initialize") {
            self.workspace_root = workspace_root(read_initialize_params(params));
        }
        if self.handshake.is_initialized() {
            if same_text(method, "textDocument/definition") {
                return answer_definition(
                    index,
                    &self.documents,
                    request.id.clone(),
                    read_definition_params(params),
                );
            }
            if same_text(method, "textDocument/hover") {
                return answer_hover(
                    index,
                    &self.documents,
                    request.id.clone(),
                    read_hover_params(params),
                );
            }
            if same_text(method, "textDocument/completion") {
                return answer_completion(
                    index,
                    &self.documents,
                    request.id.clone(),
                    read_completion_params(params),
                );
            }
        }
        self.handshake.handle_request(request)
    }

    /// Takes in a notification.
    pub fn handle_notification(&mut self, notification: &Notification) -> (r: Outcome)
        requires
            old(self).wf(),
            fits(notification.params@),
        ensures
            final(self).wf(),
            notified(
                old(self)@,
                final(self)@,
                notification.method@,
                notification.params@,
                r.action,
                outgoing_views(r.sent@),
                task_views(r.tasks@),
            ),
    {
        let method = notification.method.as_str();
        let params = notification.params.text.as_str();
        if self.handshake.is_initialized() {
            if same_text(method, "textDocument/didOpen") {
                return self.did_open(read_did_open_params(params));
            }
            if same_text(method, "textDocument/didChange") {
                return self.did_change(read_did_change_params(params));
            }
            if same_text(method, "textDocument/didClose") {
                return self.did_close(read_did_close_params(params));
            }
            if same_text(method, "textDocument/didSave") {
                return self.did_save(read_did_save_params(params));
            }
            if same_text(method, "initialized") {
                return self.initialized();
            }
        }
        let mut outcome = Outcome::nothing();
        outcome.action = self.handshake.handle_notification(notification);
        outcome
    }

    /// Takes in that a document was opened; parameters that could not be read
    /// are ignored.
    pub fn did_open(&mut self, params: Option<DidOpenParams>) -> (r: Outcome)
        requires
            old(self).wf(),
        ensures
            final(self).wf(),
            r.action == ExitAction::Continue,
            after_open(
                old(self)@,
                final(self)@,
                did_open_view(params),
                outgoing_views(r.sent@),
                task_views(r.tasks@),
            ),
    {
        let mut outcome = Outcome::nothing();
        let opened = match params {
            Some(opened) => opened,
            None => {
                return outcome;
            },
        };
        let uri = opened.uri;
        self.next_generation = if self.next_generation < u64::MAX {
            self.next_generation + 1
        } else {
            self.next_generation
        };
        let generation = self.next_generation;
        self.document_generations.insert(uri.text.clone(), generation);
        let diagnostics = self.documents.open(uri.clone(), opened.text.as_str());
        self.spawn_reindex(&uri, generation, opened.version, &mut outcome.tasks);
        self.trigger_lombok_compile(&uri, &mut outcome.tasks);
        outcome.sent.push(publish_diagnostics_notification(&uri, &diagnostics));
        proof {
            assert(outgoing_views(outcome.sent@) =~= seq![
                publication(uri@, diagnostic_views(diagnostics@)),
            ]);
            let d = self@.documents;
            assert(Seq::<TaskView>::empty() + reindex_tasks(d, uri@, generation, opened.version)
                =~= reindex_tasks(d, uri@, generation, opened.version));
        }
        outcome
    }

    /// Takes in that a document was changed; parameters that could not be read
    /// are ignored.
    pub fn did_change(&mut self, params: Option<DidChangeParams>) -> (r: Outcome)
        requires
            old(self).wf(),
        ensures
            final(self).wf(),
            r.action == ExitAction::Continue,
            after_change(
                old(self)@,
                final(self)@,
                did_change_view(params),
                outgoing_views(r.sent@),
                task_views(r.tasks@),
            ),
    {
        let mut outcome = Outcome::nothing();
        let changed = match params {
            Some(changed) => changed,
            None => {
                return outcome;
            },
        };
        let uri = changed.uri;
        let generation: u64 = match self.document_generations.get(uri.as_str()) {
            Some(generation) => *generation,
            None => 0,
        };
        let diagnostics = self.documents.change(&uri, &changed.changes);
        assert(diagnostic_views(diagnostics@).len() == diagnostics@.len());
        self.spawn_reindex(&uri, generation, changed.version, &mut outcome.tasks);
        outcome.sent.push(publish_diagnostics_notification(&uri, &diagnostics));
        proof {
            assert(outgoing_views(outcome.sent@) =~= seq![
                publication(uri@, diagnostic_views(diagnostics@)),
            ]);
            if diagnostics@.len() == 0 {
                assert(diagnostic_views(diagnostics@) =~= Seq::empty());
            }
            let d = self@.documents;
            assert(Seq::<TaskView>::empty() + reindex_tasks(d, uri@, generation, changed.version)
                =~= reindex_tasks(d, uri@, generation, changed.version));
        }
        outcome
    }

    /// Takes in that a document was closed. Nothing is taken out of the index:
    /// a later reopen has a fresh, higher generation, so any reindex still in
    /// flight from before this close, however late it completes, can never
    /// outrank a subsequent session.
    pub fn did_close(&mut self, params: Option<Uri>) -> (r: Outcome)
        requires
            old(self).wf(),
        ensures
            final(self).wf(),
            r.action == ExitAction::Continue,
            after_close(
                old(self)@,
                final(self)@,
                uri_view(params),
                outgoing_views(r.sent@),
                task_views(r.tasks@),
            ),
    {
        let mut outcome = Outcome::nothing();
        if let Some(uri) = params {
            self.documents.close(&uri);
            let none: Vec<Diagnostic> = Vec::new();
            outcome.sent.push(publish_diagnostics_notification(&uri, &none));
            assert(diagnostic_views(none@) =~= Seq::empty());
            assert(outgoing_views(outcome.sent@) =~= seq![publication(uri@, Seq::empty())]);
        }
        outcome
    }

    /// Takes in that a document was saved. The documents are already kept
    /// current via `didChange`, so this doesn't need the save params'
    /// (optional) text: it's the trigger point for the Lombok recompile check,
    /// deliberately not `didChange`, so a real `javac` process isn't spawned on
    /// every keystroke.
    pub fn did_save(&mut self, params: Option<Uri>) -> (r: Outcome)
        requires
            old(self).wf(),
        ensures
            final(self).wf(),
            r.action == ExitAction::Continue,
            after_save(
                old(self)@,
                final(self)@,
                uri_view(params),
                outgoing_views(r.sent@),
                task_views(r.tasks@),
            ),
    {
        let mut outcome = Outcome::nothing();
        if let Some(uri) = params {
            self.trigger_lombok_compile(&uri, &mut outcome.tasks);
            proof {
                let t = lombok_tasks(old(self)@.documents, old(self)@.hashes, uri@);
                assert(Seq::<TaskView>::empty() + t =~= t);
            }
        }
        outcome
    }

    /// Takes in that the client is ready: the workspace is scanned and its
    /// build resolved.
    pub fn initialized(&self) -> (r: Outcome)
        ensures
            r.action == ExitAction::Continue,
            outgoing_views(r.sent@).len() == 0,
            task_views(r.tasks@) == startup_tasks(self@.root),
    {
        let mut outcome = Outcome::nothing();
        assert(task_views(outcome.tasks@).len() == outcome.tasks@.len());
        if let Some(root) = &self.workspace_root {
            if let Some(path) = uri_to_path(root) {
                let root = path.clone();
                outcome.tasks.push(Task::ScanWorkspace { root });
                outcome.tasks.push(Task::ResolveBuild { root: path });
                assert(task_views(outcome.tasks@) =~= startup_tasks(self@.root));
            }
        }
        outcome
    }

    /// Checks whether `uri`'s currently tracked document uses Lombok and, if so
    /// and its content actually changed since the last trigger, asks for a
    /// background `javac`+Lombok compile. Silently does nothing for a
    /// non-Lombok file or an unopened document.
    fn trigger_lombok_compile(&mut self, uri: &Uri, tasks: &mut Vec<Task>)
        requires
            old(self).wf(),
        ensures
            final(self).wf(),
            final(self)@ == (ServerView {
                hashes: lombok_hashes(old(self)@.documents, old(self)@.hashes, uri@),
                ..old(self)@
            }),
            task_views(final(tasks)@) == task_views(old(tasks)@) + lombok_tasks(
                old(self)@.documents,
                old(self)@.hashes,
                uri@,
            ),
    {
        let ghost before = task_views(tasks@);
        proof {
            assert(before + Seq::empty() =~= before);
        }
        let document = match self.documents.document(uri) {
            Some(document) => document,
            None => {
                return;
            },
        };
        if !uses_lombok(document.tree(), document.source()) {
            return;
        }
        let hash = content_hash(document.source());
        let same = match self.lombok_source_hashes.get(uri.as_str()) {
            Some(last) => *last == hash,
            None => false,
        };
        if same {
            return;
        }
        let source = document.source().to_owned();
        let tree = document.shared_tree();
        self.lombok_source_hashes.insert(uri.text.clone(), hash);
        if let Some(path) = uri_to_path(uri) {
            let task = Task::CompileLombok { path, source, tree };
            let ghost view = task@;
            let ghost list = tasks@;
            tasks.push(task);
            assert(task_views(tasks@) =~= before + seq![view]);
        }
    }

    fn spawn_reindex(&self, uri: &Uri, generation: u64, version: i32, tasks: &mut Vec<Task>)
        requires
            self.wf(),
        ensures
            task_views(final(tasks)@) == task_views(old(tasks)@) + reindex_tasks(
                self@.documents,
                uri@,
                generation,
                version,
            ),
    {
        let ghost before = task_views(tasks@);
        match self.documents.document(uri) {
            Some(document) => {
                let task = Task::Reindex {
                    uri: uri.clone(),
                    generation,
                    version,
                    source: document.source().to_owned(),
                    tree: document.shared_tree(),
                };
                let ghost view = task@;
                tasks.push(task);
                assert(task_views(tasks@) =~= before + seq![view]);
            },
            None => {
                assert(before + Seq::empty() =~= before);
            },
        }
    }
}

// ---------------------------------------------------------------------------
// Carrying out tasks
// ---------------------------------------------------------------------------

/// What a document is indexed with, as it was at a version.
pub fn reindex(
    uri: Uri,
    generation: u64,
    version: i32,
    source: &str,
    tree: &Tree,
) -> (r: FileUpdate)
    ensures
        r@ == (UpdateView {
            uri: uri@,
            generation,
            version,
            symbols: document_symbols(tree_nodes(*tree), source@, uri@),
        }),
{
    let symbols = extract_symbols(&uri, source, tree);
    FileUpdate { uri, generation, version, symbols }
}

/// How a file that uses Lombok is compiled.
pub struct LombokPlan<'a> {
    pub module: &'a ModuleModel,
    pub lombok_jar: &'a String,
    pub output_dir: String,
}

/// Whether a file can be compiled for Lombok: it uses it, a module owns it, and
/// that module's classpath holds a Lombok jar.
pub open spec fn compiles_with_lombok(
    file: Seq<char>,
    source: Seq<char>,
    nodes: Seq<NodeView>,
    model: ProjectModel,
) -> bool {
    document_uses_lombok(nodes, source) && exists|i: int, j: int|
        #![trigger model.modules@[i], model.modules@[i].classpath@[j]]
        owns_file(model@, i, file) && 0 <= j < model.modules@[i].classpath@.len() && is_lombok_jar(
            model.modules@[i].classpath@[j]@,
        )
}

/// How `file` is compiled with Lombok on the processor path, if it uses Lombok
/// and its owning module has a resolvable Lombok jar. A non-Lombok file, no
/// owning module and no Lombok dependency are all expected outcomes, not
/// errors.
pub fn plan_lombok_compile<'a>(
    file: &str,
    source: &str,
    tree: &Tree,
    model: &'a ProjectModel,
    cache_root: &str,
) -> (r: Option<LombokPlan<'a>>)
    ensures
        match r {
            Some(plan) => document_uses_lombok(tree_nodes(*tree), source@) && exists|i: int, j: int|
                #![trigger model.modules@[i], model.modules@[i].classpath@[j]]
                owns_file(model@, i, file@) && *plan.module == model.modules@[i] && 0 <= j
                    < model.modules@[i].classpath@.len() && *plan.lombok_jar
                    == model.modules@[i].classpath@[j] && is_lombok_jar(
                    model.modules@[i].classpath@[j]@,
                ) && (forall|k: int|
                    0 <= k < j ==> !is_lombok_jar(#[trigger] model.modules@[i].classpath@[k]@))
                    && plan.output_dir@ == output_dir(cache_root@, model.modules@[i].root@),
            None => !compiles_with_lombok(file@, source@, tree_nodes(*tree), *model),
        },
{
    if !uses_lombok(tree, source) {
        return None;
    }
    let module = match model.module_for_file(file) {
        Some(module) => module,
        None => {
            proof {
                assert forall|i: int| !owns_file(model@, i, file@) by {
                    if 0 <= i < model@.len() {
                        assert(longest_match(model@[i].source_dirs, file@) == -1);
                    }
                }
            }
            return None;
        },
    };
    let ghost at = choose|i: int|
        owns_file(model@, i, file@) && *module == #[trigger] model.modules@[i];
    match find_lombok_jar(&module.classpath) {
        Some(lombok_jar) => Some(
            LombokPlan {
                module,
                lombok_jar,
                output_dir: output_dir_for_module(cache_root, module.root.as_str()),
            },
        ),
        None => {
            proof {
                assert forall|i: int| #[trigger] owns_file(model@, i, file@) implies i == at by {
                    crate::project_model::law_a_file_has_one_module(model@, i, at, file@);
                }
            }
            None
        },
    }
}

/// Where `javac` puts the class that a file declares, below its output
/// directory: by the file's package and its name.
pub open spec fn class_file_path(
    file: Seq<char>,
    nodes: Seq<NodeView>,
    source: Seq<char>,
) -> Option<Seq<char>> {
    match stem_of(file) {
        Some(stem) => Some(
            match declared_package(nodes, source) {
                Some(package) => joined_path(
                    replaced(package, '.', '/'),
                    stem + ".class"@,
                ),
                None => stem + ".class"@,
            },
        ),
        None => None,
    }
}

/// Where `javac` puts the class that a file declares, below its output
/// directory.
pub fn compiled_class_path(file: &str, source: &str, tree: &Tree) -> (r: Option<String>)
    ensures
        opt_text(r) == class_file_path(file@, tree_nodes(*tree), source@),
{
    match file_stem(file) {
        Some(stem) => {
            let mut name = stem;
            name.append(".class");
            match source_package(tree, source) {
                Some(package) => {
                    let chars = to_chars(package.as_str());
                    assert(chars@.subrange(0, chars@.len() as int) =~= package@);
                    let dir = replace_range(&chars, 0, chars.len(), '.', '/');
                    Some(join_path(dir.as_str(), name.as_str()))
                },
                None => Some(name),
            }
        },
        None => None,
    }
}

/// The class that was compiled from a file, and what becomes of its stub's
/// symbols (see [`crate::lombok::stub_symbol_overrides`]): hand-written members
/// are excluded, and generated accessors redirected to their fields.
pub struct Redirects {
    pub class: ClassFile,
    pub overrides: Overrides,
}

/// The redirects for the class in `bytes`, compiled from `file`; `None` where
/// the bytes are no class, or the file's path is too long for a URI.
pub fn lombok_redirects(file: &str, source: &str, tree: &Tree, bytes: &[u8]) -> (r: Option<
    Redirects,
>)
    ensures
        match r {
            Some(redirects) => encode_utf8(uri_of_path(file@)).len() <= max_uri_len()
                && class_file(bytes@) == Ok::<ClassFileView, ClassFileError>(redirects.class@)
                && override_views(redirects.overrides@) == overrides(
                redirects.class@,
                document_symbols(tree_nodes(*tree), source@, uri_of_path(file@)),
            ),
            None => encode_utf8(uri_of_path(file@)).len() > max_uri_len() || class_file(
                bytes@,
            ) is Err,
        },
{
    let uri = match path_to_uri(file) {
        Some(uri) => uri,
        None => {
            return None;
        },
    };
    match parse(bytes) {
        Ok(class) => {
            let original = extract_symbols(&uri, source, tree);
            let overrides = stub_symbol_overrides(&class, original.as_slice());
            Some(Redirects { class, overrides })
        },
        Err(_) => None,
    }
}

// ---------------------------------------------------------------------------
// Laws
// ---------------------------------------------------------------------------

/// Whether no document was opened in a generation that is still to come.
pub open spec fn generations_counted(server: ServerView) -> bool {
    forall|uri: Seq<char>| #[trigger]
        server.generations.contains_key(uri) ==> server.generations[uri] <= server.generation
}

/// No notification takes a document ahead of the counter.
pub proof fn law_generations_stay_counted(
    before: ServerView,
    after: ServerView,
    method: Seq<char>,
    params: Seq<char>,
    action: ExitAction,
    sent: Seq<OutgoingView>,
    tasks: Seq<TaskView>,
)
    requires
        generations_counted(before),
        notified(before, after, method, params, action, sent, tasks),
    ensures
        generations_counted(after),
        after.generation >= before.generation,
{
}

/// Opening a document anew outranks every earlier session of it: once the index
/// holds what was indexed on the new open, whatever is still under way from
/// before, of any version, is stale.
pub proof fn law_reopening_outranks_earlier_sessions(
    before: ServerView,
    after: ServerView,
    params: DidOpenView,
    sent: Seq<OutgoingView>,
    tasks: Seq<TaskView>,
    index: IndexView,
    generation: u64,
    version: i32,
)
    requires
        generations_counted(before),
        before.generation < u64::MAX,
        after_open(before, after, Some(params), sent, tasks),
        index.applied.contains_key(params.uri),
        index.applied[params.uri].0 == after.generations[params.uri],
        before.generations.contains_key(params.uri),
        generation == before.generations[params.uri],
    ensures
        is_stale(index, params.uri, generation, version),
{
}

/// A change of a document that was closed is ignored: no document comes of it,
/// nothing is indexed, and no diagnostics are reported.
pub proof fn law_changes_after_close_are_ignored(
    before: ServerView,
    closed: ServerView,
    after: ServerView,
    uri: Seq<char>,
    change: DidChangeView,
    sent_on_close: Seq<OutgoingView>,
    sent: Seq<OutgoingView>,
    tasks: Seq<TaskView>,
)
    requires
        after_close(before, closed, Some(uri), sent_on_close, Seq::empty()),
        change.uri == uri,
        after_change(closed, after, Some(change), sent, tasks),
    ensures
        after == closed,
        !after.documents.contains_key(uri),
        tasks.len() == 0,
        sent == seq![publication(uri, Seq::empty())],
{
}

/// A document holds the text that it was opened with.
pub proof fn law_an_opened_document_holds_its_text(
    before: ServerView,
    after: ServerView,
    params: DidOpenView,
    sent: Seq<OutgoingView>,
    tasks: Seq<TaskView>,
)
    requires
        after_open(before, after, Some(params), sent, tasks),
    ensures
        after.documents.contains_key(params.uri),
        after.documents[params.uri].source == params.text,
        forall|uri: Seq<char>|
            uri != params.uri && before.documents.contains_key(uri)
                ==> after.documents.contains_key(uri) && #[trigger] after.documents[uri]
                == before.documents[uri],
{
}

/// Saving a document twice without a change between compiles it no second time.
pub proof fn law_saving_again_compiles_nothing(
    before: ServerView,
    saved: ServerView,
    after: ServerView,
    uri: Seq<char>,
    first: Seq<TaskView>,
    second: Seq<TaskView>,
)
    requires
        after_save(before, saved, Some(uri), Seq::empty(), first),
        after_save(saved, after, Some(uri), Seq::empty(), second),
    ensures
        second.len() == 0,
        after == saved,
{
}

/// Whatever a request asks for, its response carries its id, and neither the
/// documents nor what is known of their sessions change.
pub proof fn law_a_request_is_answered_under_its_id(
    before: ServerView,
    after: ServerView,
    index: IndexView,
    id: Seq<char>,
    method: Seq<char>,
    params: Seq<char>,
    response: ResponseView,
)
    requires
        requested(before, after, index, id, method, params, response),
    ensures
        response.id == id,
        after.documents == before.documents,
        after.generation == before.generation,
        after.generations == before.generations,
        after.hashes == before.hashes,
{
    law_responses_carry_the_request_id(before.state, id, method);
}

/// A feature that is asked for before `initialize` or after `shutdown` is
/// refused, and the server stays as it is.
pub proof fn law_features_are_refused_outside_a_session(
    before: ServerView,
    after: ServerView,
    index: IndexView,
    id: Seq<char>,
    method: Seq<char>,
    params: Seq<char>,
    response: ResponseView,
)
    requires
        before.state != State::Initialized,
        is_feature(method),
        requested(before, after, index, id, method, params, response),
    ensures
        response.outcome is Err,
        after == before,
{
    reveal_strlit("initialize");
    reveal_strlit("textDocument/definition");
    reveal_strlit("textDocument/hover");
    reveal_strlit("textDocument/completion");
    assert("initialize"@.len() != method.len());
}

/// A notification before `initialize` or after `shutdown` changes nothing.
pub proof fn law_only_an_initialized_server_takes_notifications(
    before: ServerView,
    after: ServerView,
    method: Seq<char>,
    params: Seq<char>,
    action: ExitAction,
    sent: Seq<OutgoingView>,
    tasks: Seq<TaskView>,
)
    requires
        before.state != State::Initialized,
        notified(before, after, method, params, action, sent, tasks),
    ensures
        after == before,
        sent.len() == 0,
        tasks.len() == 0,
{
}

/// Opening a document begins a session of it, with a generation of its own, and
/// hands out one task to index it: the text it was opened with, under that
/// generation and the client's version. Its diagnostics are published.
pub proof fn law_opening_begins_a_session(
    before: ServerView,
    after: ServerView,
    params: DidOpenView,
    sent: Seq<OutgoingView>,
    tasks: Seq<TaskView>,
)
    requires
        before.generation < u64::MAX,
        after_open(before, after, Some(params), sent, tasks),
    ensures
        after.generation == before.generation + 1,
        after.generations[params.uri] == after.generation,
        after.documents[params.uri] == fresh_tree(params.text),
        after.state == before.state,
        after.root == before.root,
        tasks.len() > 0,
        tasks[0] == (TaskView::Reindex {
            uri: params.uri,
            generation: after.generation,
            version: params.version,
            source: params.text,
            nodes: java_nodes(params.text),
        }),
        forall|k: int| 1 <= k < tasks.len() ==> (#[trigger] tasks[k]) is CompileLombok,
        sent.len() == 1,
        sent[0].method == "textDocument/publishDiagnostics"@,
        sent[0].params == published_json(
            params.uri,
            diagnostics_of(java_nodes(params.text), params.text),
        ),
{
}

/// A change of an open document is indexed in the session that it was opened
/// in, as the text that it then has, and nothing is compiled; its diagnostics
/// are published anew.
pub proof fn law_a_change_is_indexed_in_its_session(
    before: ServerView,
    after: ServerView,
    params: DidChangeView,
    sent: Seq<OutgoingView>,
    tasks: Seq<TaskView>,
)
    requires
        before.documents.contains_key(params.uri),
        before.generations.contains_key(params.uri),
        after_change(before, after, Some(params), sent, tasks),
    ensures
        after.documents[params.uri] == changed_by(before.documents[params.uri], params.changes),
        after.generation == before.generation,
        after.generations == before.generations,
        after.hashes == before.hashes,
        after.state == before.state,
        after.root == before.root,
        tasks == seq![
            TaskView::Reindex {
                uri: params.uri,
                generation: before.generations[params.uri],
                version: params.version,
                source: after.documents[params.uri].source,
                nodes: after.documents[params.uri].nodes,
            },
        ],
        sent.len() == 1,
        sent[0].method == "textDocument/publishDiagnostics"@,
        sent[0].params == published_json(
            params.uri,
            diagnostics_of(
                after.documents[params.uri].nodes,
                after.documents[params.uri].source,
            ),
        ),
{
}

/// Closing a document forgets its text, and that alone, and takes back its
/// diagnostics.
pub proof fn law_closing_takes_back_the_diagnostics(
    before: ServerView,
    after: ServerView,
    uri: Seq<char>,
    other: Seq<char>,
    sent: Seq<OutgoingView>,
    tasks: Seq<TaskView>,
)
    requires
        after_close(before, after, Some(uri), sent, tasks),
        other != uri,
    ensures
        !after.documents.contains_key(uri),
        after.documents.contains_key(other) == before.documents.contains_key(other),
        after.documents.contains_key(other) ==> after.documents[other] == before.documents[other],
        after.generation == before.generation,
        after.generations == before.generations,
        after.hashes == before.hashes,
        tasks.len() == 0,
        sent.len() == 1,
        sent[0].method == "textDocument/publishDiagnostics"@,
        sent[0].params == published_json(uri, Seq::empty()),
{
}

/// Saving a document that is a file, uses Lombok and has not been compiled as it
/// is hands out one task to compile it; any other save hands out none. Nothing
/// is sent, and no document changes.
pub proof fn law_saving_compiles_what_uses_lombok(
    before: ServerView,
    after: ServerView,
    uri: Seq<char>,
    sent: Seq<OutgoingView>,
    tasks: Seq<TaskView>,
)
    requires
        after_save(before, after, Some(uri), sent, tasks),
    ensures
        ({
            let document = before.documents[uri];
            let due = before.documents.contains_key(uri) && document_uses_lombok(
                document.nodes,
                document.source,
            ) && !(before.hashes.contains_key(uri) && before.hashes[uri] == hash_of(
                document.source,
            ));
            &&& tasks.len() == if due && path_of_uri(uri) is Some {
                1nat
            } else {
                0
            }
            &&& tasks.len() == 1 ==> tasks[0] == (TaskView::CompileLombok {
                path: path_of_uri(uri)->0,
                source: document.source,
                nodes: document.nodes,
            })
            &&& due ==> after.hashes.contains_key(uri) && after.hashes[uri] == hash_of(
                document.source,
            )
        }),
        after.documents == before.documents,
        after.generations == before.generations,
        sent.len() == 0,
{
}

/// The workspace is that of the first folder; where the client names none, it is
/// that of the root.
pub proof fn law_the_first_folder_is_the_workspace(
    folder: Seq<char>,
    others: Seq<Seq<char>>,
    root: Option<Seq<char>>,
)
    ensures
        root_of(Some(InitializeView { folders: Some(seq![folder] + others), root })) == Some(
            folder,
        ),
        root_of(Some(InitializeView { folders: None, root })) == root,
        root_of(Some(InitializeView { folders: Some(Seq::empty()), root })) == root,
        root_of(None) is None,
{
}

/// When the client is ready, the workspace is scanned and then its build is
/// resolved, where its root is a directory.
pub proof fn law_a_session_starts_with_the_workspace(root: Seq<char>, path: Seq<char>)
    requires
        path_of_uri(root) == Some(path),
    ensures
        startup_tasks(Some(root)).len() == 2,
        startup_tasks(Some(root))[0] == (TaskView::ScanWorkspace { root: path }),
        startup_tasks(Some(root))[1] == (TaskView::ResolveBuild { root: path }),
        startup_tasks(None).len() == 0,
{
}

/// A request for a feature whose parameters can be read is answered with what
/// the feature finds, and with null where it finds nothing; one whose parameters
/// cannot be read is refused with the reason.
pub proof fn law_features_answer_what_they_find(
    documents: Map<Seq<char>, SyntaxTreeView>,
    index: IndexView,
    id: Seq<char>,
    at: TextDocumentPositionView,
    error: Seq<char>,
    response: ResponseView,
)
    ensures
        definition_answered(documents, index, id, Ok(at), response) ==> response.id == id
            && response.outcome == Ok::<Seq<char>, (i64, Seq<char>)>(
            match definitions(index, documents, at.uri, at.position) {
                Some(list) => locations_json(list),
                None => "null"@,
            },
        ),
        definition_answered(documents, index, id, Err(error), response) ==> response.outcome is Err
            && (response.outcome->Err_0).0 == -32602,
        hover_answered(documents, index, id, Ok(at), response) ==> response.id == id
            && response.outcome is Ok && exists|h: Option<HoverView>| #[trigger]
            hovered(index, documents, at, h) && response.outcome->Ok_0 == match h {
                Some(v) => hover_json(v),
                None => "null"@,
            },
        hover_answered(documents, index, id, Err(error), response) ==> response.outcome is Err
            && (response.outcome->Err_0).0 == -32602,
        completion_answered(documents, index, id, Ok(at), response) ==> response.id == id
            && response.outcome is Ok && exists|list: Option<Seq<CompletionItemView>>| #[trigger]
            completed(index, documents, at, list) && response.outcome->Ok_0 == match list {
                Some(v) => items_json(v),
                None => "null"@,
            },
        completion_answered(documents, index, id, Err(error), response) ==> response.outcome is Err
            && (response.outcome->Err_0).0 == -32602,
{
}

/// The class that `javac` makes of a file lies where its package, with slashes,
/// and its name say.
pub proof fn law_a_class_lies_where_its_package_says(
    file: Seq<char>,
    nodes: Seq<NodeView>,
    source: Seq<char>,
    stem: Seq<char>,
)
    requires
        stem_of(file) == Some(stem),
    ensures
        declared_package(nodes, source) is None ==> class_file_path(file, nodes, source) == Some(
            stem + ".class"@,
        ),
        declared_package(nodes, source) is Some ==> class_file_path(file, nodes, source) == Some(
            joined_path(
                Seq::new(
                    declared_package(nodes, source)->0.len(),
                    |i: int|
                        if declared_package(nodes, source)->0[i] == '.' {
                            '/'
                        } else {
                            declared_package(nodes, source)->0[i]
                        },
                ),
                stem + ".class"@,
            ),
        ),
{
    if declared_package(nodes, source) is Some {
        let package = declared_package(nodes, source)->0;
        assert(replaced(package, '.', '/') =~= Seq::new(
            package.len(),
            |i: int|
                if package[i] == '.' {
                    '/'
                } else {
                    package[i]
                },
        ));
    }
}

/// A running server hands each request for a feature to that feature, with the
/// parameters that it was given.
pub proof fn law_requests_reach_their_feature(
    before: ServerView,
    after: ServerView,
    index: IndexView,
    id: Seq<char>,
    params: Seq<char>,
    response: ResponseView,
)
    requires
        before.state == State::Initialized,
    ensures
        requested(before, after, index, id, "textDocument/definition"@, params, response)
            ==> after == before && definition_answered(
            before.documents,
            index,
            id,
            definition_params(params),
            response,
        ),
        requested(before, after, index, id, "textDocument/hover"@, params, response) ==> after
            == before && hover_answered(
            before.documents,
            index,
            id,
            hover_params(params),
            response,
        ),
        requested(before, after, index, id, "textDocument/completion"@, params, response) ==> after
            == before && completion_answered(
            before.documents,
            index,
            id,
            completion_params(params),
            response,
        ),
{
    reveal_strlit("textDocument/definition");
    reveal_strlit("textDocument/hover");
    reveal_strlit("textDocument/completion");
    reveal_strlit("initialize");
    assert("textDocument/definition"@.len() == 23);
    assert("textDocument/hover"@.len() == 18);
    assert("textDocument/completion"@.len() == 23);
    assert("textDocument/definition"@[13] == 'd' && "textDocument/completion"@[13] == 'c');
    assert("initialize"@.len() == 10);
}

/// A running server hands each notification to what it concerns, with the
/// parameters that it was given; one that it does not know changes nothing.
pub proof fn law_notifications_reach_what_they_concern(
    before: ServerView,
    after: ServerView,
    method: Seq<char>,
    params: Seq<char>,
    action: ExitAction,
    sent: Seq<OutgoingView>,
    tasks: Seq<TaskView>,
)
    requires
        before.state == State::Initialized,
        notified(before, after, method, params, action, sent, tasks),
    ensures
        method == "textDocument/didOpen"@ ==> after_open(
            before,
            after,
            did_open_params(params),
            sent,
            tasks,
        ),
        method == "textDocument/didChange"@ ==> after_change(
            before,
            after,
            did_change_params(params),
            sent,
            tasks,
        ),
        method == "textDocument/didClose"@ ==> after_close(
            before,
            after,
            did_close_params(params),
            sent,
            tasks,
        ),
        method == "textDocument/didSave"@ ==> after_save(
            before,
            after,
            did_save_params(params),
            sent,
            tasks,
        ),
        method == "initialized"@ ==> after == before && sent.len() == 0 && tasks == startup_tasks(
            before.root,
        ),
        method == "exit"@ ==> action == ExitAction::Exit(1),
        method != "exit"@ ==> action == ExitAction::Continue,
        method != "textDocument/didOpen"@ && method != "textDocument/didChange"@ && method
            != "textDocument/didClose"@ && method != "textDocument/didSave"@ && method
            != "initialized"@ ==> after == before && sent.len() == 0 && tasks.len() == 0,
{
    reveal_strlit("textDocument/didOpen");
    reveal_strlit("textDocument/didChange");
    reveal_strlit("textDocument/didClose");
    reveal_strlit("textDocument/didSave");
    reveal_strlit("initialized");
    reveal_strlit("exit");
    assert("textDocument/didOpen"@.len() == 20 && "textDocument/didOpen"@[16] == 'O');
    assert("textDocument/didChange"@.len() == 22);
    assert("textDocument/didClose"@.len() == 21);
    assert("textDocument/didSave"@.len() == 20 && "textDocument/didSave"@[16] == 'S');
    assert("initialized"@.len() == 11);
    assert("exit"@.len() == 4);
}

/// What a notification of a document says is ignored where it cannot be read.
pub proof fn law_what_cannot_be_read_is_ignored(
    before: ServerView,
    after: ServerView,
    sent: Seq<OutgoingView>,
    tasks: Seq<TaskView>,
)
    ensures
        after_open(before, after, None, sent, tasks) || after_change(
            before,
            after,
            None,
            sent,
            tasks,
        ) || after_close(before, after, None, sent, tasks) || after_save(
            before,
            after,
            None,
            sent,
            tasks,
        ) ==> after == before && sent.len() == 0 && tasks.len() == 0,
{
}

} // verus!
