use java_lsp::protocol::{Position, Range, Uri};
use java_lsp::symbol::{SymbolInfo, SymbolKind};
use java_lsp::workspace_index::{WorkspaceIndex, SCANNED_FROM_DISK};

fn uri(value: &str) -> Uri {
    Uri::new(value)
}

fn symbol(name: &str, uri: Uri) -> SymbolInfo {
    let range = Range::new(Position::new(0, 0), Position::new(0, 1));
    SymbolInfo {
        name: name.to_string(),
        kind: SymbolKind::Class,
        uri,
        range,
        selection_range: range,
        owner: None,
    }
}

#[test]
fn lookup_returns_empty_for_an_unknown_name() {
    let index = WorkspaceIndex::new();

    assert!(index.lookup("Main").is_empty());
}

#[test]
fn update_file_then_lookup_finds_the_symbol() {
    let mut index = WorkspaceIndex::new();
    let doc = uri("file:///Main.java");

    index.update_file(doc.clone(), 1, 1, vec![symbol("Main", doc)]);

    assert_eq!(index.lookup("Main").len(), 1);
}

#[test]
fn update_file_with_a_lower_version_in_the_same_generation_is_rejected() {
    let mut index = WorkspaceIndex::new();
    let doc = uri("file:///Main.java");
    index.update_file(doc.clone(), 1, 5, vec![symbol("Main", doc.clone())]);

    let applied = index.update_file(doc.clone(), 1, 3, vec![symbol("Stale", doc)]);

    assert!(!applied);
    assert_eq!(index.lookup("Main").len(), 1);
    assert!(index.lookup("Stale").is_empty());
}

#[test]
fn update_file_with_a_higher_version_replaces_old_symbols() {
    let mut index = WorkspaceIndex::new();
    let doc = uri("file:///Main.java");
    index.update_file(doc.clone(), 1, 1, vec![symbol("Old", doc.clone())]);

    let applied = index.update_file(doc.clone(), 1, 2, vec![symbol("New", doc)]);

    assert!(applied);
    assert!(index.lookup("Old").is_empty());
    assert_eq!(index.lookup("New").len(), 1);
}

#[test]
fn a_disk_scanned_entry_is_superseded_by_a_real_generation_either_order() {
    let mut index = WorkspaceIndex::new();
    let doc = uri("file:///Main.java");

    index.update_file(doc.clone(), 1, 1, vec![symbol("FromOpen", doc.clone())]);
    let scan_applied = index.update_file(
        doc.clone(),
        SCANNED_FROM_DISK,
        0,
        vec![symbol("FromDisk", doc.clone())],
    );

    assert!(!scan_applied);
    assert_eq!(index.lookup("FromOpen").len(), 1);
    assert!(index.lookup("FromDisk").is_empty());

    let mut index_other_order = WorkspaceIndex::new();
    index_other_order.update_file(
        doc.clone(),
        SCANNED_FROM_DISK,
        0,
        vec![symbol("FromDisk", doc.clone())],
    );
    let open_applied =
        index_other_order.update_file(doc.clone(), 1, 1, vec![symbol("FromOpen", doc)]);

    assert!(open_applied);
    assert!(index_other_order.lookup("FromDisk").is_empty());
    assert_eq!(index_other_order.lookup("FromOpen").len(), 1);
}

#[test]
fn a_later_generation_always_wins_even_with_a_lower_version_number() {
    // Simulates: edit up to version 10, close, reopen (new generation) at
    // version 1, and a stale in-flight reindex from before the close
    // finally completing afterwards — it must not clobber the reopen.
    let mut index = WorkspaceIndex::new();
    let doc = uri("file:///Main.java");

    index.update_file(doc.clone(), 1, 1, vec![symbol("New", doc.clone())]);
    let stale_applied =
        index.update_file(doc.clone(), 0, 10, vec![symbol("StaleOld", doc.clone())]);

    assert!(!stale_applied);
    assert_eq!(index.lookup("New").len(), 1);
    assert!(index.lookup("StaleOld").is_empty());
}

#[test]
fn completions_filters_by_prefix_across_files() {
    let mut index = WorkspaceIndex::new();
    index.update_file(
        uri("file:///Main.java"),
        1,
        1,
        vec![symbol("Greeter", uri("file:///Main.java"))],
    );
    index.update_file(
        uri("file:///Other.java"),
        1,
        1,
        vec![symbol("Greeting", uri("file:///Other.java"))],
    );

    let mut names: Vec<&str> = index
        .completions("Gree")
        .into_iter()
        .map(|s| s.name.as_str())
        .collect();
    names.sort_unstable();

    assert_eq!(names, vec!["Greeter", "Greeting"]);
    assert!(index.completions("Zzz").is_empty());
}

#[test]
fn completions_deduplicates_a_class_and_an_import_of_the_same_name() {
    let mut index = WorkspaceIndex::new();
    let greeter_uri = uri("file:///Greeter.java");
    let main_uri = uri("file:///Main.java");
    index.update_file(
        greeter_uri.clone(),
        1,
        1,
        vec![symbol("Greeter", greeter_uri)],
    );
    index.update_file(
        main_uri.clone(),
        1,
        1,
        vec![SymbolInfo {
            name: "Greeter".to_string(),
            kind: SymbolKind::Import,
            uri: main_uri,
            range: Range::new(Position::new(0, 0), Position::new(0, 1)),
            selection_range: Range::new(Position::new(0, 0), Position::new(0, 1)),
            owner: None,
        }],
    );

    let matches = index.completions("Gree");

    assert_eq!(matches.len(), 1);
    assert_eq!(matches[0].kind, SymbolKind::Class);
}

#[test]
fn completions_finds_only_matching_names_among_many_decoy_entries() {
    let mut index = WorkspaceIndex::new();
    for i in 0..20_000 {
        let name = format!("Decoy{i}");
        let entry_uri = uri(&format!("file:///decoy/{i}.java"));
        index.update_file(entry_uri.clone(), 1, 1, vec![symbol(&name, entry_uri)]);
    }
    let target_uri = uri("file:///Target.java");
    index.update_file(
        target_uri.clone(),
        1,
        1,
        vec![symbol("TargetType", target_uri)],
    );

    let names: Vec<&str> = index
        .completions("Target")
        .into_iter()
        .map(|s| s.name.as_str())
        .collect();

    assert_eq!(names, vec!["TargetType"]);
}

#[test]
fn completions_stays_fast_with_tens_of_thousands_of_distinct_names() {
    let mut index = WorkspaceIndex::new();
    for i in 0..50_000 {
        // Fixed-width so no name is a prefix of another distinct name.
        let name = format!("java.util.Decoy{i:05}");
        let entry_uri = uri(&format!("file:///decoy/{i}.java"));
        index.update_file(entry_uri.clone(), 1, 1, vec![symbol(&name, entry_uri)]);
    }

    let start = std::time::Instant::now();
    let matches = index.completions("java.util.Decoy01234");
    let elapsed = start.elapsed();

    assert_eq!(matches.len(), 1);
    assert!(
        elapsed < std::time::Duration::from_millis(200),
        "completions took {elapsed:?}, expected a range query rather than a full scan"
    );
}

#[test]
fn completions_are_in_ascending_order_with_one_entry_per_name() {
    let mut index = WorkspaceIndex::new();
    let doc = uri("file:///A.java");
    let other = uri("file:///B.java");
    index.update_file(
        doc.clone(),
        1,
        1,
        vec![
            symbol("geé", doc.clone()),
            symbol("get", doc.clone()),
            symbol("ge", doc.clone()),
            symbol("g", doc.clone()),
        ],
    );
    index.update_file(other.clone(), 1, 1, vec![symbol("get", other)]);

    let names: Vec<&str> = index
        .completions("ge")
        .into_iter()
        .map(|s| s.name.as_str())
        .collect();

    assert_eq!(names, vec!["ge", "get", "geé"]);
    let best = index.completions("get");
    assert_eq!(best[0].uri, doc);
    assert_eq!(index.lookup("get").len(), 2);
}

#[test]
fn completions_by_owner_offers_the_members_of_one_type() {
    let mut index = WorkspaceIndex::new();
    let doc = uri("file:///A.java");
    let mut mine = symbol("name", doc.clone());
    mine.owner = Some("Person".to_string());
    let mut other = symbol("number", doc.clone());
    other.owner = Some("Car".to_string());
    index.update_file(doc.clone(), 1, 1, vec![other, mine, symbol("nothing", doc)]);

    let names: Vec<&str> = index
        .completions_by_owner("n", "Person")
        .into_iter()
        .map(|s| s.name.as_str())
        .collect();

    assert_eq!(names, vec!["name"]);
    assert!(index.completions_by_owner("", "Dog").is_empty());
}

#[test]
fn update_file_replaces_what_the_document_gave_wherever_it_stands() {
    let mut index = WorkspaceIndex::new();
    let stub = uri("file:///stubs/P.java");
    let source = uri("file:///P.java");
    let redirect = symbol("getName", source.clone());

    assert!(index.update_file(stub.clone(), 1, 1, vec![redirect.clone()]));
    assert!(index.update_file(stub.clone(), 1, 2, vec![redirect.clone()]));
    assert_eq!(index.lookup("getName").len(), 1);

    // The document that it stands in does not take it out.
    let own = symbol("getName", source.clone());
    assert!(index.update_file(source.clone(), 1, 1, vec![own]));
    assert!(index.update_file(source, 1, 2, vec![]));
    assert_eq!(index.lookup("getName"), [redirect]);

    assert!(index.update_file(stub, 1, 3, vec![]));
    assert!(index.lookup("getName").is_empty());
}
