//! The JSON text of what the server answers and reports.

use crate::jsonrpc::{Json, json_string, quote};
use crate::protocol::{
    CompletionItem, CompletionItemKind, CompletionItemView, Diagnostic, DiagnosticSeverity,
    DiagnosticView, Hover, HoverView, Location, LocationView, Position, Range, Uri,
    diagnostic_views, item_views, location_views,
};
use crate::text::{decimal, join, joined, lemma_texts_push, texts, to_decimal};
use vstd::prelude::*;
use vstd::string::*;

verus! {

pub open spec fn position_json(p: Position) -> Seq<char> {
    "{\"character\":"@ + decimal(p.character as nat) + ",\"line\":"@ + decimal(p.line as nat)
        + "}"@
}

pub open spec fn range_json(r: Range) -> Seq<char> {
    "{\"end\":"@ + position_json(r.end) + ",\"start\":"@ + position_json(r.start) + "}"@
}

pub open spec fn location_json(l: LocationView) -> Seq<char> {
    "{\"range\":"@ + range_json(l.range) + ",\"uri\":"@ + json_string(l.uri) + "}"@
}

/// A list of values.
pub open spec fn list_json(values: Seq<Seq<char>>) -> Seq<char> {
    "["@ + joined(values, ","@) + "]"@
}

pub open spec fn locations_json(list: Seq<LocationView>) -> Seq<char> {
    list_json(list.map_values(|l: LocationView| location_json(l)))
}

/// A hover: its contents, and its range where it has one.
pub open spec fn hover_json(h: HoverView) -> Seq<char> {
    "{\"contents\":"@ + json_string(h.contents) + (match h.range {
        Some(range) => ",\"range\":"@ + range_json(range),
        None => ""@,
    }) + "}"@
}

/// The protocol's number of a kind.
pub open spec fn kind_number(kind: CompletionItemKind) -> nat {
    match kind {
        CompletionItemKind::Method => 2,
        CompletionItemKind::Constructor => 4,
        CompletionItemKind::Field => 5,
        CompletionItemKind::Class => 7,
        CompletionItemKind::Interface => 8,
        CompletionItemKind::Module => 9,
        CompletionItemKind::Enum => 13,
    }
}

pub open spec fn item_json(i: CompletionItemView) -> Seq<char> {
    "{"@ + (match i.kind {
        Some(kind) => "\"kind\":"@ + decimal(kind_number(kind)) + ","@,
        None => ""@,
    }) + "\"label\":"@ + json_string(i.label) + "}"@
}

pub open spec fn items_json(list: Seq<CompletionItemView>) -> Seq<char> {
    list_json(list.map_values(|i: CompletionItemView| item_json(i)))
}

/// The protocol's number of a severity.
pub open spec fn severity_number(severity: DiagnosticSeverity) -> nat {
    match severity {
        DiagnosticSeverity::Error => 1,
        DiagnosticSeverity::Warning => 2,
        DiagnosticSeverity::Information => 3,
        DiagnosticSeverity::Hint => 4,
    }
}

pub open spec fn diagnostic_json(d: DiagnosticView) -> Seq<char> {
    "{\"message\":"@ + json_string(d.message) + ",\"range\":"@ + range_json(d.range) + (
    match d.severity {
        Some(severity) => ",\"severity\":"@ + decimal(severity_number(severity)),
        None => ""@,
    }) + (match d.source {
        Some(source) => ",\"source\":"@ + json_string(source),
        None => ""@,
    }) + "}"@
}

/// What is published of a document: all of its diagnostics.
pub open spec fn published_json(uri: Seq<char>, list: Seq<DiagnosticView>) -> Seq<char> {
    "{\"diagnostics\":"@ + list_json(list.map_values(|d: DiagnosticView| diagnostic_json(d)))
        + ",\"uri\":"@ + json_string(uri) + "}"@
}

fn position_text(p: Position) -> (r: String)
    ensures
        r@ == position_json(p),
{
    let mut out = "{\"character\":".to_owned();
    out.append(to_decimal(p.character as u64).as_str());
    out.append(",\"line\":");
    out.append(to_decimal(p.line as u64).as_str());
    out.append("}");
    out
}

fn range_text(r: Range) -> (s: String)
    ensures
        s@ == range_json(r),
{
    let mut out = "{\"end\":".to_owned();
    out.append(position_text(r.end).as_str());
    out.append(",\"start\":");
    out.append(position_text(r.start).as_str());
    out.append("}");
    out
}

fn location_text(l: &Location) -> (r: String)
    ensures
        r@ == location_json(l@),
{
    let mut out = "{\"range\":".to_owned();
    out.append(range_text(l.range).as_str());
    out.append(",\"uri\":");
    out.append(quote(l.uri.as_str()).as_str());
    out.append("}");
    out
}

fn list_text(values: &Vec<String>) -> (r: Json)
    ensures
        r@ == list_json(texts(values@)),
{
    let mut out = "[".to_owned();
    out.append(join(values, ",").as_str());
    out.append("]");
    Json { text: out }
}

/// The locations as JSON.
pub fn locations_to_json(list: &Vec<Location>) -> (r: Json)
    ensures
        r@ == locations_json(location_views(list@)),
{
    let ghost wanted = location_views(list@).map_values(|l: LocationView| location_json(l));
    let mut values: Vec<String> = Vec::new();
    let mut i: usize = 0;
    assert(texts(values@) =~= wanted.take(0));
    while i < list.len()
        invariant
            i <= list.len(),
            wanted == location_views(list@).map_values(|l: LocationView| location_json(l)),
            texts(values@) == wanted.take(i as int),
        decreases list.len() - i,
    {
        let value = location_text(&list[i]);
        proof {
            lemma_texts_push(values@, value);
            assert(value@ == wanted[i as int]);
            assert(wanted.take(i + 1) =~= wanted.take(i as int).push(wanted[i as int]));
        }
        values.push(value);
        i += 1;
    }
    assert(wanted.take(i as int) =~= wanted);
    list_text(&values)
}

/// The hover as JSON.
pub fn hover_to_json(h: &Hover) -> (r: Json)
    ensures
        r@ == hover_json(h@),
{
    let mut out = "{\"contents\":".to_owned();
    out.append(quote(h.contents.as_str()).as_str());
    match h.range {
        Some(range) => {
            out.append(",\"range\":");
            out.append(range_text(range).as_str());
        },
        None => {
            out.append("");
        },
    }
    out.append("}");
    assert(out@ =~= hover_json(h@));
    Json { text: out }
}

fn number_of_kind(kind: CompletionItemKind) -> (r: u64)
    ensures
        r == kind_number(kind),
{
    match kind {
        CompletionItemKind::Method => 2,
        CompletionItemKind::Constructor => 4,
        CompletionItemKind::Field => 5,
        CompletionItemKind::Class => 7,
        CompletionItemKind::Interface => 8,
        CompletionItemKind::Module => 9,
        CompletionItemKind::Enum => 13,
    }
}

fn item_text(item: &CompletionItem) -> (r: String)
    ensures
        r@ == item_json(item@),
{
    let mut out = "{".to_owned();
    match item.kind {
        Some(kind) => {
            out.append("\"kind\":");
            out.append(to_decimal(number_of_kind(kind)).as_str());
            out.append(",");
        },
        None => {
            out.append("");
        },
    }
    out.append("\"label\":");
    out.append(quote(item.label.as_str()).as_str());
    out.append("}");
    assert(out@ =~= item_json(item@));
    out
}

/// The completion items as JSON.
pub fn items_to_json(list: &Vec<CompletionItem>) -> (r: Json)
    ensures
        r@ == items_json(item_views(list@)),
{
    let ghost wanted = item_views(list@).map_values(|i: CompletionItemView| item_json(i));
    let mut values: Vec<String> = Vec::new();
    let mut i: usize = 0;
    assert(texts(values@) =~= wanted.take(0));
    while i < list.len()
        invariant
            i <= list.len(),
            wanted == item_views(list@).map_values(|i: CompletionItemView| item_json(i)),
            texts(values@) == wanted.take(i as int),
        decreases list.len() - i,
    {
        let value = item_text(&list[i]);
        proof {
            lemma_texts_push(values@, value);
            assert(value@ == wanted[i as int]);
            assert(wanted.take(i + 1) =~= wanted.take(i as int).push(wanted[i as int]));
        }
        values.push(value);
        i += 1;
    }
    assert(wanted.take(i as int) =~= wanted);
    list_text(&values)
}

fn number_of_severity(severity: DiagnosticSeverity) -> (r: u64)
    ensures
        r == severity_number(severity),
{
    match severity {
        DiagnosticSeverity::Error => 1,
        DiagnosticSeverity::Warning => 2,
        DiagnosticSeverity::Information => 3,
        DiagnosticSeverity::Hint => 4,
    }
}

fn diagnostic_text(d: &Diagnostic) -> (r: String)
    ensures
        r@ == diagnostic_json(d@),
{
    let mut out = "{\"message\":".to_owned();
    out.append(quote(d.message.as_str()).as_str());
    out.append(",\"range\":");
    out.append(range_text(d.range).as_str());
    match d.severity {
        Some(severity) => {
            out.append(",\"severity\":");
            out.append(to_decimal(number_of_severity(severity)).as_str());
        },
        None => {
            out.append("");
        },
    }
    match &d.source {
        Some(source) => {
            out.append(",\"source\":");
            out.append(quote(source.as_str()).as_str());
        },
        None => {
            out.append("");
        },
    }
    out.append("}");
    assert(out@ =~= diagnostic_json(d@));
    out
}

/// What is published of a document, as JSON.
pub fn published_to_json(uri: &Uri, list: &Vec<Diagnostic>) -> (r: Json)
    ensures
        r@ == published_json(uri@, diagnostic_views(list@)),
{
    let ghost wanted = diagnostic_views(list@).map_values(|d: DiagnosticView| diagnostic_json(d));
    let mut values: Vec<String> = Vec::new();
    let mut i: usize = 0;
    assert(texts(values@) =~= wanted.take(0));
    while i < list.len()
        invariant
            i <= list.len(),
            wanted == diagnostic_views(list@).map_values(|d: DiagnosticView| diagnostic_json(d)),
            texts(values@) == wanted.take(i as int),
        decreases list.len() - i,
    {
        let value = diagnostic_text(&list[i]);
        proof {
            lemma_texts_push(values@, value);
            assert(value@ == wanted[i as int]);
            assert(wanted.take(i + 1) =~= wanted.take(i as int).push(wanted[i as int]));
        }
        values.push(value);
        i += 1;
    }
    assert(wanted.take(i as int) =~= wanted);
    let mut out = "{\"diagnostics\":".to_owned();
    out.append(list_text(&values).text.as_str());
    out.append(",\"uri\":");
    out.append(quote(uri.as_str()).as_str());
    out.append("}");
    Json { text: out }
}

/// Kinds and severities are written as the numbers that the protocol gives them.
pub proof fn law_kinds_have_the_protocols_numbers()
    ensures
        kind_number(CompletionItemKind::Method) == 2,
        kind_number(CompletionItemKind::Constructor) == 4,
        kind_number(CompletionItemKind::Field) == 5,
        kind_number(CompletionItemKind::Class) == 7,
        kind_number(CompletionItemKind::Interface) == 8,
        kind_number(CompletionItemKind::Module) == 9,
        kind_number(CompletionItemKind::Enum) == 13,
        severity_number(DiagnosticSeverity::Error) == 1,
        severity_number(DiagnosticSeverity::Warning) == 2,
        severity_number(DiagnosticSeverity::Information) == 3,
        severity_number(DiagnosticSeverity::Hint) == 4,
{
}

/// A list is written with commas between its values, in their order.
pub proof fn law_lists_are_written_in_their_order(
    list: Seq<LocationView>,
    last: LocationView,
)
    requires
        list.len() > 0,
    ensures
        locations_json(list.push(last)) == locations_json(list).drop_last() + ","@ + location_json(
            last,
        ) + "]"@,
        locations_json(seq![last]) == "["@ + location_json(last) + "]"@,
        locations_json(Seq::empty()) == "[]"@,
{
    reveal_strlit("]");
    reveal_strlit("[");
    reveal_strlit("[]");
    let values = list.map_values(|l: LocationView| location_json(l));
    let more = list.push(last).map_values(|l: LocationView| location_json(l));
    assert(more =~= values.push(location_json(last)));
    assert(more.drop_last() =~= values);
    let text = locations_json(list);
    assert(text.drop_last() =~= "["@ + joined(values, ","@));
    assert(locations_json(list.push(last)) =~= text.drop_last() + ","@ + location_json(last)
        + "]"@);
    let one = seq![last].map_values(|l: LocationView| location_json(l));
    assert(one =~= seq![location_json(last)]);
    let none = Seq::<LocationView>::empty().map_values(|l: LocationView| location_json(l));
    assert(none =~= Seq::empty());
    assert("["@ + Seq::<char>::empty() + "]"@ =~= "[]"@);
}

/// A location, a range and a position are written with all that they hold, each
/// behind its name.
pub proof fn law_locations_are_written_by_name(l: LocationView)
    ensures
        location_json(l) == "{\"range\":{\"end\":{\"character\":"@ + decimal(
            l.range.end.character as nat,
        ) + ",\"line\":"@ + decimal(l.range.end.line as nat)
            + "},\"start\":{\"character\":"@ + decimal(l.range.start.character as nat)
            + ",\"line\":"@ + decimal(l.range.start.line as nat) + "}},\"uri\":"@ + json_string(
            l.uri,
        ) + "}"@,
{
    reveal_strlit("{\"range\":");
    reveal_strlit("{\"end\":");
    reveal_strlit("{\"character\":");
    reveal_strlit(",\"start\":");
    reveal_strlit("}");
    reveal_strlit(",\"uri\":");
    reveal_strlit("{\"range\":{\"end\":{\"character\":");
    reveal_strlit("},\"start\":{\"character\":");
    reveal_strlit("}},\"uri\":");
    let a = "{\"range\":{\"end\":{\"character\":"@;
    let b = "},\"start\":{\"character\":"@;
    let c = "}},\"uri\":"@;
    assert(a =~= "{\"range\":"@ + "{\"end\":"@ + "{\"character\":"@);
    assert(b =~= "}"@ + ",\"start\":"@ + "{\"character\":"@);
    assert(c =~= "}"@ + "}"@ + ",\"uri\":"@);
    let wanted = a + decimal(l.range.end.character as nat) + ",\"line\":"@ + decimal(
        l.range.end.line as nat,
    ) + b + decimal(l.range.start.character as nat) + ",\"line\":"@ + decimal(
        l.range.start.line as nat,
    ) + c + json_string(l.uri) + "}"@;
    assert(location_json(l) =~= wanted);
}

} // verus!
