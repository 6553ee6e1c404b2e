use java_lsp::path::{extension, file_name, file_stem, join_path, parent, path_starts_with};
use java_lsp::protocol::Uri;
use java_lsp::workspace_index::WorkspaceIndex;
use java_lsp::workspace_scan::{
    index_source_file, normalize_path_for_uri, path_from_parts, path_to_uri, percent_decode_path,
    percent_encode_path, uri_to_path, DirEntry, FileSearch,
};
use std::path::Path;

fn entry(path: &str, is_dir: bool) -> DirEntry {
    DirEntry {
        path: path.to_string(),
        is_dir,
    }
}

fn find(listings: &[(&str, &[(&str, bool)])], root: &str) -> Vec<String> {
    let list = |dir: &str| -> Vec<DirEntry> {
        listings
            .iter()
            .find(|(d, _)| *d == dir)
            .map(|(_, entries)| entries.iter().map(|(p, d)| entry(p, *d)).collect())
            .unwrap_or_default()
    };
    let mut search = FileSearch::new(list(root));
    while let Some(dir) = search.next_dir() {
        search.listed(list(&dir));
    }
    search.files().clone()
}

#[test]
fn find_java_files_finds_nested_java_files_and_skips_hidden_dirs_and_other_extensions() {
    let files = find(
        &[
            (
                "/t",
                &[
                    ("/t/Main.java", false),
                    ("/t/util", true),
                    ("/t/.git", true),
                    ("/t/NotJava.txt", false),
                    ("/t/Z.java", false),
                ],
            ),
            ("/t/util", &[("/t/util/Greeter.java", false)]),
            ("/t/.git", &[("/t/.git/ignored.java", false)]),
        ],
        "/t",
    );

    assert_eq!(
        files,
        vec!["/t/Main.java", "/t/util/Greeter.java", "/t/Z.java"]
    );
}

#[test]
fn uri_to_path_extracts_the_filesystem_path_from_a_file_uri() {
    let uri = Uri::new("file:///home/tim/testbed/Main.java");

    let path = uri_to_path(&uri).unwrap();

    assert_eq!(path, "/home/tim/testbed/Main.java");
}

#[test]
fn uri_to_path_returns_none_for_a_non_file_scheme() {
    let uri = Uri::new("https://example.com/Main.java");

    assert!(uri_to_path(&uri).is_none());
}

#[test]
fn uri_to_path_returns_none_for_what_is_no_uri() {
    assert!(uri_to_path(&Uri::new("file:///a b")).is_none());
    assert!(uri_to_path(&Uri::new("/just/a/path")).is_none());
    assert_eq!(
        uri_to_path(&Uri::new("FILE:///a")),
        Some("/a".to_string())
    );
}

#[test]
fn uri_to_path_decodes_percent_encoded_spaces() {
    let uri = Uri::new("file:///home/tim/My%20Project/Main.java");

    let path = uri_to_path(&uri).unwrap();

    assert_eq!(path, "/home/tim/My Project/Main.java");
}

#[test]
fn uri_to_path_strips_the_leading_slash_before_a_windows_drive_letter() {
    let uri = Uri::new("file:///C:/Users/me/Main.java");

    let path = uri_to_path(&uri).unwrap();

    assert_eq!(path, "C:/Users/me/Main.java");
}

#[test]
fn path_from_parts_goes_by_scheme_and_path() {
    let parts = |scheme: Option<&str>, path: &str| {
        path_from_parts(&Some((scheme.map(str::to_string), path.to_string())))
    };

    assert_eq!(parts(Some("File"), "/a%2Fb"), Some("/a/b".to_string()));
    assert_eq!(parts(Some("ftp"), "/a"), None);
    assert_eq!(parts(None, "/a"), None);
    assert_eq!(path_from_parts(&None), None);
}

#[test]
fn normalize_path_for_uri_converts_backslashes_and_adds_a_leading_slash() {
    assert_eq!(
        normalize_path_for_uri("C:\\Users\\me\\Main.java"),
        "/C:/Users/me/Main.java"
    );
}

#[test]
fn normalize_path_for_uri_leaves_a_unix_path_unchanged() {
    assert_eq!(
        normalize_path_for_uri("/home/tim/Main.java"),
        "/home/tim/Main.java"
    );
}

#[test]
fn path_to_uri_and_uri_to_path_round_trip_a_windows_style_path() {
    let uri = Uri::new(&format!(
        "file://{}",
        percent_encode_path(&normalize_path_for_uri("C:\\Users\\me\\Main.java"))
    ));

    let path = uri_to_path(&uri).unwrap();

    assert_eq!(path, "C:/Users/me/Main.java");
    assert_eq!(path_to_uri("C:\\Users\\me\\Main.java"), Some(uri));
}

#[test]
fn every_path_leads_back_from_its_uri() {
    for path in [
        "/",
        "//a",
        "/a b/c",
        "/ä/€/𝄞.java",
        "/%41/+?#[]@!$&'()*,;=:~",
        "/a\u{7f}\n\t\"<>",
    ] {
        let uri = path_to_uri(path).unwrap();
        assert_eq!(uri_to_path(&uri), Some(path.to_string()));
    }
    assert_eq!(
        path_to_uri("/My Project/é.java").unwrap(),
        Uri::new("file:///My%20Project/%C3%A9.java")
    );
}

#[test]
fn percent_decoding_leaves_what_is_no_code_alone() {
    assert_eq!(percent_decode_path("%41%zz%4"), "A%zz%4");
    assert_eq!(percent_decode_path("%+5x"), "\u{5}x");
    assert_eq!(percent_decode_path("100%"), "100%");
    assert_eq!(percent_decode_path("%FFa"), "\u{FFFD}a");
}

#[test]
fn index_workspace_indexes_a_file_under_a_path_containing_a_space() {
    let mut index = WorkspaceIndex::new();

    index_source_file("/My Project/Main.java", "class Main {}")
        .unwrap()
        .apply(&mut index);

    assert_eq!(index.lookup("Main").len(), 1);
    assert_eq!(
        index.lookup("Main")[0].uri,
        Uri::new("file:///My%20Project/Main.java")
    );
}

#[test]
fn index_workspace_indexes_every_discovered_file() {
    let mut index = WorkspaceIndex::new();

    index_source_file("/w/Main.java", "class Main {}")
        .unwrap()
        .apply(&mut index);
    index_source_file("/w/Greeter.java", "class Greeter {}")
        .unwrap()
        .apply(&mut index);

    assert_eq!(index.lookup("Main").len(), 1);
    assert_eq!(index.lookup("Greeter").len(), 1);
}

#[test]
fn what_is_read_from_disk_does_not_outrank_an_open_document() {
    let mut index = WorkspaceIndex::new();
    let uri = Uri::new("file:///w/Main.java");
    index.update_file(uri, 1, 1, Vec::new());

    index_source_file("/w/Main.java", "class Main {}")
        .unwrap()
        .apply(&mut index);

    assert!(index.lookup("Main").is_empty());
}

#[test]
fn paths_are_read_part_by_part() {
    assert_eq!(file_name("/a/b.java"), Some("b.java".to_string()));
    assert_eq!(file_name("/a/b/"), Some("b".to_string()));
    assert_eq!(file_name("/a/b/."), Some("b".to_string()));
    assert_eq!(file_name("/a/.."), None);
    assert_eq!(file_name("/"), None);
    assert_eq!(file_name("."), None);
    assert_eq!(file_name(""), None);
    assert_eq!(extension("/a/b.tar.gz"), Some("gz".to_string()));
    assert_eq!(extension("/a/.java"), None);
    assert_eq!(extension("a."), Some(String::new()));
    assert_eq!(file_stem("/a/b.tar.gz"), Some("b.tar".to_string()));
    assert_eq!(file_stem(".git"), Some(".git".to_string()));
    assert_eq!(join_path("/a", "b"), "/a/b");
    assert_eq!(join_path("/a/", "b"), "/a/b");
    assert_eq!(join_path("", "b"), "b");
    assert_eq!(join_path("/a", "/b"), "/b");
    assert_eq!(parent("/a/b/c"), Some("/a/b".to_string()));
    assert_eq!(parent("/a"), Some("/".to_string()));
    assert_eq!(parent("a"), Some(String::new()));
    assert_eq!(parent("/"), None);
    assert!(path_starts_with("/a//b/./c", "/a/b/"));
    assert!(!path_starts_with("/ab", "/a"));
    assert!(!path_starts_with("a/b", "/a"));
}

#[test]
fn paths_agree_with_the_standard_library() {
    let samples = [
        "", "/", ".", "..", "./a", "a/./b", "/a//b/", "/a/b.java", ".java", "a.b.c", "/x/..",
        "x/y/.", "//a", "a.", "..a", "...",
    ];
    for p in samples {
        let path = Path::new(p);
        assert_eq!(
            file_name(p).as_deref(),
            path.file_name().map(|n| n.to_str().unwrap()),
            "{p}"
        );
        assert_eq!(
            extension(p).as_deref(),
            path.extension().map(|n| n.to_str().unwrap()),
            "{p}"
        );
        assert_eq!(
            file_stem(p).as_deref(),
            path.file_stem().map(|n| n.to_str().unwrap()),
            "{p}"
        );
        assert_eq!(
            parent(p).map(|q| Path::new(&q).to_path_buf()),
            path.parent().map(|q| q.to_path_buf()),
            "{p}"
        );
        for q in samples {
            assert_eq!(
                path_starts_with(p, q),
                path.starts_with(Path::new(q)),
                "{p} {q}"
            );
            assert_eq!(
                join_path(p, q),
                path.join(Path::new(q)).to_str().unwrap(),
                "{p} {q}"
            );
        }
    }
}
