//! The values of the language server protocol that the library works on.

use crate::text::opt_text;
use vstd::prelude::*;

verus! {

/// A place in a document: its line, and the number of UTF-16 code units before
/// it on that line, both counted from zero.
#[derive(Debug, Clone, Copy, PartialEq, Eq, Hash, Structural)]
pub struct Position {
    pub line: u32,
    pub character: u32,
}

impl Position {
    pub fn new(line: u32, character: u32) -> (r: Self)
        ensures
            r == (Position { line, character }),
    {
        Position { line, character }
    }
}

/// A stretch of a document, its end excluded.
#[derive(Debug, Clone, Copy, PartialEq, Eq, Hash, Structural)]
pub struct Range {
    pub start: Position,
    pub end: Position,
}

impl Range {
    pub fn new(start: Position, end: Position) -> (r: Self)
        ensures
            r == (Range { start, end }),
    {
        Range { start, end }
    }
}

/// One change to a document: of the whole text, or of a range of it.
#[derive(Debug, Clone, PartialEq, Eq)]
pub struct TextDocumentContentChangeEvent {
    pub range: Option<Range>,
    pub range_length: Option<u32>,
    pub text: String,
}

/// What a [`TextDocumentContentChangeEvent`] says, as mathematical values.
pub struct ChangeView {
    pub range: Option<Range>,
    pub range_length: Option<u32>,
    pub text: Seq<char>,
}

impl View for TextDocumentContentChangeEvent {
    type V = ChangeView;

    open spec fn view(&self) -> ChangeView {
        ChangeView { range: self.range, range_length: self.range_length, text: self.text@ }
    }
}

/// The changes of a list, as mathematical values.
pub open spec fn change_views(list: Seq<TextDocumentContentChangeEvent>) -> Seq<ChangeView> {
    list.map_values(|c: TextDocumentContentChangeEvent| c@)
}

#[derive(Debug, Clone, Copy, PartialEq, Eq, Hash, Structural)]
pub enum DiagnosticSeverity {
    Error,
    Warning,
    Information,
    Hint,
}

/// A remark on a stretch of a document.
#[derive(Debug, Clone, PartialEq, Eq)]
pub struct Diagnostic {
    pub range: Range,
    pub severity: Option<DiagnosticSeverity>,
    pub source: Option<String>,
    pub message: String,
}

/// What a [`Diagnostic`] says, as mathematical values.
pub struct DiagnosticView {
    pub range: Range,
    pub severity: Option<DiagnosticSeverity>,
    pub source: Option<Seq<char>>,
    pub message: Seq<char>,
}

impl View for Diagnostic {
    type V = DiagnosticView;

    open spec fn view(&self) -> DiagnosticView {
        DiagnosticView {
            range: self.range,
            severity: self.severity,
            source: opt_text(self.source),
            message: self.message@,
        }
    }
}

/// The diagnostics of a list, as mathematical values.
pub open spec fn diagnostic_views(list: Seq<Diagnostic>) -> Seq<DiagnosticView> {
    list.map_values(|d: Diagnostic| d@)
}

/// The name of a document. Two are the same where their texts are.
#[derive(Debug, PartialEq, Eq, Hash)]
pub struct Uri {
    pub text: String,
}

impl View for Uri {
    type V = Seq<char>;

    open spec fn view(&self) -> Seq<char> {
        self.text@
    }
}

impl Uri {
    pub fn new(text: &str) -> (r: Self)
        ensures
            r@ == text@,
    {
        Uri { text: text.to_owned() }
    }

    pub fn as_str(&self) -> (r: &str)
        ensures
            r@ == self@,
    {
        self.text.as_str()
    }
}

impl Clone for Uri {
    fn clone(&self) -> (r: Self)
        ensures
            r == *self,
    {
        Uri { text: self.text.clone() }
    }
}

/// A place in a document.
#[derive(Debug, PartialEq, Eq)]
pub struct Location {
    pub uri: Uri,
    pub range: Range,
}

/// What a [`Location`] says, as mathematical values.
pub struct LocationView {
    pub uri: Seq<char>,
    pub range: Range,
}

impl View for Location {
    type V = LocationView;

    open spec fn view(&self) -> LocationView {
        LocationView { uri: self.uri@, range: self.range }
    }
}

/// The locations of a list, as mathematical values.
pub open spec fn location_views(list: Seq<Location>) -> Seq<LocationView> {
    list.map_values(|l: Location| l@)
}

/// What a hover shows, and the stretch that it is about.
#[derive(Debug, PartialEq, Eq)]
pub struct Hover {
    pub contents: String,
    pub range: Option<Range>,
}

/// What a [`Hover`] says, as mathematical values.
pub struct HoverView {
    pub contents: Seq<char>,
    pub range: Option<Range>,
}

impl View for Hover {
    type V = HoverView;

    open spec fn view(&self) -> HoverView {
        HoverView { contents: self.contents@, range: self.range }
    }
}

#[derive(Debug, Clone, Copy, PartialEq, Eq, Hash, Structural)]
pub enum CompletionItemKind {
    Method,
    Constructor,
    Field,
    Class,
    Interface,
    Module,
    Enum,
}

#[derive(Debug, PartialEq, Eq)]
pub struct CompletionItem {
    pub label: String,
    pub kind: Option<CompletionItemKind>,
}

/// What a [`CompletionItem`] says, as mathematical values.
pub struct CompletionItemView {
    pub label: Seq<char>,
    pub kind: Option<CompletionItemKind>,
}

impl View for CompletionItem {
    type V = CompletionItemView;

    open spec fn view(&self) -> CompletionItemView {
        CompletionItemView { label: self.label@, kind: self.kind }
    }
}

/// The items of a list, as mathematical values.
pub open spec fn item_views(list: Seq<CompletionItem>) -> Seq<CompletionItemView> {
    list.map_values(|i: CompletionItem| i@)
}

/// A document and a position in it, as requests name what they are about.
#[derive(Debug, PartialEq, Eq)]
pub struct TextDocumentPosition {
    pub uri: Uri,
    pub position: Position,
}

/// What a [`TextDocumentPosition`] says, as mathematical values.
pub struct TextDocumentPositionView {
    pub uri: Seq<char>,
    pub position: Position,
}

impl View for TextDocumentPosition {
    type V = TextDocumentPositionView;

    open spec fn view(&self) -> TextDocumentPositionView {
        TextDocumentPositionView { uri: self.uri@, position: self.position }
    }
}

} // verus!
