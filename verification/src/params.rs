//! The parameters of requests and notifications, read from their JSON.

use crate::protocol::{
    ChangeView, Position, Range, TextDocumentContentChangeEvent, TextDocumentPosition,
    TextDocumentPositionView, Uri, change_views,
};
use vstd::prelude::*;
use vstd::utf8::encode_utf8;

verus! {

/// Whether a text is not longer than a URI may be: then no URI in it is.
pub open spec fn fits(text: Seq<char>) -> bool {
    encode_utf8(text).len() <= 0x7FFF_FFFF
}

/// A document that was opened.
#[derive(Debug, PartialEq, Eq)]
pub struct DidOpenParams {
    pub uri: Uri,
    pub version: i32,
    pub text: String,
}

/// What [`DidOpenParams`] say, as mathematical values.
pub struct DidOpenView {
    pub uri: Seq<char>,
    pub version: i32,
    pub text: Seq<char>,
}

impl View for DidOpenParams {
    type V = DidOpenView;

    open spec fn view(&self) -> DidOpenView {
        DidOpenView { uri: self.uri@, version: self.version, text: self.text@ }
    }
}

/// A document that was changed.
#[derive(Debug, PartialEq, Eq)]
pub struct DidChangeParams {
    pub uri: Uri,
    pub version: i32,
    pub changes: Vec<TextDocumentContentChangeEvent>,
}

/// What [`DidChangeParams`] say, as mathematical values.
pub struct DidChangeView {
    pub uri: Seq<char>,
    pub version: i32,
    pub changes: Seq<ChangeView>,
}

impl View for DidChangeParams {
    type V = DidChangeView;

    open spec fn view(&self) -> DidChangeView {
        DidChangeView {
            uri: self.uri@,
            version: self.version,
            changes: change_views(self.changes@),
        }
    }
}

/// What a client says of its workspace on `initialize`.
#[derive(Debug, PartialEq, Eq)]
pub struct InitializeParams {
    pub folders: Option<Vec<Uri>>,
    pub root: Option<Uri>,
}

/// What [`InitializeParams`] say, as mathematical values.
pub struct InitializeView {
    pub folders: Option<Seq<Seq<char>>>,
    pub root: Option<Seq<char>>,
}

pub open spec fn uri_view(uri: Option<Uri>) -> Option<Seq<char>> {
    match uri {
        Some(u) => Some(u@),
        None => None,
    }
}

impl View for InitializeParams {
    type V = InitializeView;

    open spec fn view(&self) -> InitializeView {
        InitializeView {
            folders: match self.folders {
                Some(list) => Some(list@.map_values(|u: Uri| u@)),
                None => None,
            },
            root: uri_view(self.root),
        }
    }
}

/// What a reading says, as mathematical values.
pub open spec fn position_result(r: Result<TextDocumentPosition, String>) -> Result<
    TextDocumentPositionView,
    Seq<char>,
> {
    match r {
        Ok(p) => Ok(p@),
        Err(e) => Err(e@),
    }
}

/// The document and position of a `textDocument/definition` request's
/// parameters, or why they are none.
pub uninterp spec fn definition_params(params: Seq<char>) -> Result<
    TextDocumentPositionView,
    Seq<char>,
>;

/// The document and position of a `textDocument/hover` request's parameters, or
/// why they are none.
pub uninterp spec fn hover_params(params: Seq<char>) -> Result<
    TextDocumentPositionView,
    Seq<char>,
>;

/// The document and position of a `textDocument/completion` request's
/// parameters, or why they are none.
pub uninterp spec fn completion_params(params: Seq<char>) -> Result<
    TextDocumentPositionView,
    Seq<char>,
>;

/// What the parameters of `textDocument/didOpen` say, where they are that.
pub uninterp spec fn did_open_params(params: Seq<char>) -> Option<DidOpenView>;

/// What the parameters of `textDocument/didChange` say, where they are that.
pub uninterp spec fn did_change_params(params: Seq<char>) -> Option<DidChangeView>;

/// The document in the parameters of `textDocument/didClose`, where they are
/// that.
pub uninterp spec fn did_close_params(params: Seq<char>) -> Option<Seq<char>>;

/// The document in the parameters of `textDocument/didSave`, where they are
/// that.
pub uninterp spec fn did_save_params(params: Seq<char>) -> Option<Seq<char>>;

/// What the parameters of `initialize` say of the workspace, where they are
/// that.
pub uninterp spec fn initialize_params(params: Seq<char>) -> Option<InitializeView>;

/// `serde_json::from_value` to `lsp_types::GotoDefinitionParams`: the document
/// and the position, or the error in words, depend on the text alone.
#[verifier::external_body]
pub(crate) fn read_definition_params(params: &str) -> (r: Result<TextDocumentPosition, String>)
    requires
        fits(params@),
    ensures
        position_result(r) == definition_params(params@),
{
    let value = serde_json::from_str(params).map_err(|err| err.to_string())?;
    let read: lsp_types::GotoDefinitionParams = serde_json::from_value(value).map_err(
        |err| err.to_string(),
    )?;
    let at = read.text_document_position_params;
    let position = Position { line: at.position.line, character: at.position.character };
    Ok(TextDocumentPosition { uri: Uri { text: at.text_document.uri.as_str().to_owned() }, position })
}

/// `serde_json::from_value` to `lsp_types::HoverParams`: the document and the
/// position, or the error in words, depend on the text alone.
#[verifier::external_body]
pub(crate) fn read_hover_params(params: &str) -> (r: Result<TextDocumentPosition, String>)
    requires
        fits(params@),
    ensures
        position_result(r) == hover_params(params@),
{
    let value = serde_json::from_str(params).map_err(|err| err.to_string())?;
    let read: lsp_types::HoverParams = serde_json::from_value(value).map_err(
        |err| err.to_string(),
    )?;
    let at = read.text_document_position_params;
    let position = Position { line: at.position.line, character: at.position.character };
    Ok(TextDocumentPosition { uri: Uri { text: at.text_document.uri.as_str().to_owned() }, position })
}

/// `serde_json::from_value` to `lsp_types::CompletionParams`: the document and
/// the position, or the error in words, depend on the text alone.
#[verifier::external_body]
pub(crate) fn read_completion_params(params: &str) -> (r: Result<TextDocumentPosition, String>)
    requires
        fits(params@),
    ensures
        position_result(r) == completion_params(params@),
{
    let value = serde_json::from_str(params).map_err(|err| err.to_string())?;
    let read: lsp_types::CompletionParams = serde_json::from_value(value).map_err(
        |err| err.to_string(),
    )?;
    let at = read.text_document_position;
    let position = Position { line: at.position.line, character: at.position.character };
    Ok(TextDocumentPosition { uri: Uri { text: at.text_document.uri.as_str().to_owned() }, position })
}

pub open spec fn did_open_view(r: Option<DidOpenParams>) -> Option<DidOpenView> {
    match r {
        Some(p) => Some(p@),
        None => None,
    }
}

pub open spec fn did_change_view(r: Option<DidChangeParams>) -> Option<DidChangeView> {
    match r {
        Some(p) => Some(p@),
        None => None,
    }
}

pub open spec fn initialize_view(r: Option<InitializeParams>) -> Option<InitializeView> {
    match r {
        Some(p) => Some(p@),
        None => None,
    }
}

/// `serde_json::from_value` to `lsp_types::DidOpenTextDocumentParams`: what it
/// says depends on the text alone.
#[verifier::external_body]
pub(crate) fn read_did_open_params(params: &str) -> (r: Option<DidOpenParams>)
    requires
        fits(params@),
    ensures
        did_open_view(r) == did_open_params(params@),
{
    let value = serde_json::from_str(params).ok()?;
    let read: lsp_types::DidOpenTextDocumentParams = serde_json::from_value(value).ok()?;
    let document = read.text_document;
    let uri = Uri { text: document.uri.as_str().to_owned() };
    Some(DidOpenParams { uri, version: document.version, text: document.text })
}

/// `serde_json::from_value` to `lsp_types::DidChangeTextDocumentParams`: what
/// it says depends on the text alone.
#[verifier::external_body]
pub(crate) fn read_did_change_params(params: &str) -> (r: Option<DidChangeParams>)
    requires
        fits(params@),
    ensures
        did_change_view(r) == did_change_params(params@),
{
    let value = serde_json::from_str(params).ok()?;
    let read: lsp_types::DidChangeTextDocumentParams = serde_json::from_value(value).ok()?;
    let place = |p: lsp_types::Position| Position { line: p.line, character: p.character };
    let range = |r: lsp_types::Range| Range { start: place(r.start), end: place(r.end) };
    let changes = read.content_changes.into_iter().map(|c| TextDocumentContentChangeEvent {
        range: c.range.map(range),
        range_length: c.range_length,
        text: c.text,
    }).collect();
    let uri = Uri { text: read.text_document.uri.as_str().to_owned() };
    Some(DidChangeParams { uri, version: read.text_document.version, changes })
}

/// `serde_json::from_value` to `lsp_types::DidCloseTextDocumentParams`: the
/// document depends on the text alone.
#[verifier::external_body]
pub(crate) fn read_did_close_params(params: &str) -> (r: Option<Uri>)
    requires
        fits(params@),
    ensures
        uri_view(r) == did_close_params(params@),
{
    let value = serde_json::from_str(params).ok()?;
    let read: lsp_types::DidCloseTextDocumentParams = serde_json::from_value(value).ok()?;
    Some(Uri { text: read.text_document.uri.as_str().to_owned() })
}

/// `serde_json::from_value` to `lsp_types::DidSaveTextDocumentParams`: the
/// document depends on the text alone.
#[verifier::external_body]
pub(crate) fn read_did_save_params(params: &str) -> (r: Option<Uri>)
    requires
        fits(params@),
    ensures
        uri_view(r) == did_save_params(params@),
{
    let value = serde_json::from_str(params).ok()?;
    let read: lsp_types::DidSaveTextDocumentParams = serde_json::from_value(value).ok()?;
    Some(Uri { text: read.text_document.uri.as_str().to_owned() })
}

/// `serde_json::from_value` to `lsp_types::InitializeParams`: what it says of
/// the workspace depends on the text alone.
#[verifier::external_body]
#[allow(deprecated)]
pub(crate) fn read_initialize_params(params: &str) -> (r: Option<InitializeParams>)
    requires
        fits(params@),
    ensures
        initialize_view(r) == initialize_params(params@),
{
    let value = serde_json::from_str(params).ok()?;
    let read: lsp_types::InitializeParams = serde_json::from_value(value).ok()?;
    let name = |uri: lsp_types::Uri| Uri { text: uri.as_str().to_owned() };
    let folders = read.workspace_folders.map(
        |list| list.into_iter().map(|folder| name(folder.uri)).collect(),
    );
    Some(InitializeParams { folders, root: read.root_uri.map(name) })
}

} // verus!
