use file_organizer::meta::compute_file_type;
use file_organizer::meta::make_file_meta;
use file_organizer::scanner::EntryInfo;
use file_organizer::scanner::Scanner;

fn file(name: &str, path: &str, size: u64) -> EntryInfo {
    EntryInfo::File {
        name: name.to_string(),
        path: path.to_string(),
        size,
        ext_valid: true,
        created: Some("100".to_string()),
        modified: Some("200".to_string()),
    }
}

fn dir(path: &str) -> EntryInfo {
    EntryInfo::Dir { path: path.to_string() }
}

#[test]
fn empty_directory_yields_empty() {
    let mut s = Scanner::new("root".to_string());
    let d = s.next_dir();
    assert_eq!(d, Some("root".to_string()));
    s.add_entries(Vec::new());
    assert!(s.done());
    let files = s.into_files();
    assert_eq!(files.len(), 0);
}

#[test]
fn flat_directory_counts_every_file() {
    let mut s = Scanner::new("root".to_string());
    let d = s.next_dir().unwrap();
    assert_eq!(d, "root");
    s.add_entries(vec![
        file("a.txt", "root/a.txt", 1),
        file("b.rs", "root/b.rs", 2),
        file("c", "root/c", 3),
    ]);
    assert_eq!(s.next_dir(), None);
    assert!(s.done());
    let files = s.into_files();
    assert_eq!(files.len(), 3);
    for (name, size) in [("a.txt", 1u64), ("b.rs", 2), ("c", 3)] {
        let hits: Vec<_> = files.iter().filter(|f| f.name == name).collect();
        assert_eq!(hits.len(), 1);
        assert_eq!(hits[0].size, size);
    }
}

#[test]
fn nested_directories_have_full_paths() {
    let mut s = Scanner::new("root".to_string());
    assert_eq!(s.next_dir(), Some("root".to_string()));
    s.add_entries(vec![file("a.txt", "root/a.txt", 10), dir("root/sub")]);
    assert_eq!(s.next_dir(), Some("root/sub".to_string()));
    s.add_entries(vec![file("b.txt", "root/sub/b.txt", 20)]);
    assert_eq!(s.next_dir(), None);
    assert!(s.done());
    let files = s.into_files();
    assert_eq!(files.len(), 2);
    assert_eq!(files[0].name, "a.txt");
    assert_eq!(files[0].path, "root/a.txt");
    assert_eq!(files[1].name, "b.txt");
    assert_eq!(files[1].path, "root/sub/b.txt");
}

#[test]
fn depth_first_visits_first_listed_subdirectory_first() {
    let mut s = Scanner::new("root".to_string());
    s.next_dir();
    s.add_entries(vec![dir("root/a"), dir("root/b")]);
    assert_eq!(s.next_dir(), Some("root/a".to_string()));
    s.add_entries(vec![dir("root/a/inner")]);
    // the subdirectory of root/a is visited before the sibling root/b
    assert_eq!(s.next_dir(), Some("root/a/inner".to_string()));
    s.add_entries(vec![file("x", "root/a/inner/x", 1)]);
    assert_eq!(s.next_dir(), Some("root/b".to_string()));
    s.add_entries(Vec::new());
    assert!(s.done());
    assert_eq!(s.into_files().len(), 1);
}

#[test]
fn no_extension_yields_unknown() {
    assert_eq!(compute_file_type("README"), "unknown");
    let m = make_file_meta("README".to_string(), "root/README".to_string(), 5, true, None, None);
    assert_eq!(m.file_type, "unknown");
}

#[test]
fn txt_extension_yields_txt() {
    assert_eq!(compute_file_type("notes.txt"), "txt");
}

#[test]
fn extension_case_is_normalized_to_lowercase() {
    assert_eq!(compute_file_type("NOTES.TXT"), "txt");
    assert_eq!(compute_file_type("Mixed.TaR"), "tar");
}

#[test]
fn extension_edge_cases() {
    // a leading dot alone does not make an extension
    assert_eq!(compute_file_type(".gitignore"), "unknown");
    // only the last dot counts
    assert_eq!(compute_file_type("archive.tar.gz"), "gz");
    // a trailing dot gives an empty extension
    assert_eq!(compute_file_type("trailing."), "");
    // a dot right after a leading dot still counts
    assert_eq!(compute_file_type("..hidden"), "hidden");
}

#[test]
fn nonexistent_root_yields_empty() {
    // the caller finds the root unreadable and supplies nothing at all
    let mut s = Scanner::new("/no/such/path".to_string());
    assert_eq!(s.next_dir(), Some("/no/such/path".to_string()));
    assert!(s.done());
    assert_eq!(s.into_files().len(), 0);
    // or it reports the unreadable root as an empty listing
    let mut s2 = Scanner::new("/no/such/path".to_string());
    s2.next_dir();
    s2.add_entries(Vec::new());
    assert!(s2.done());
    assert_eq!(s2.into_files().len(), 0);
}

fn drive(listings: &[(&str, Vec<EntryInfo>)]) -> Vec<(String, u64)> {
    let mut s = Scanner::new(listings[0].0.to_string());
    while let Some(d) = s.next_dir() {
        let entries = listings
            .iter()
            .find(|(p, _)| *p == d)
            .map(|(_, es)| clone_entries(es))
            .unwrap_or_default();
        s.add_entries(entries);
    }
    s.into_files().into_iter().map(|f| (f.name, f.size)).collect()
}

fn clone_entries(es: &[EntryInfo]) -> Vec<EntryInfo> {
    es.iter()
        .map(|e| match e {
            EntryInfo::Dir { path } => EntryInfo::Dir { path: path.clone() },
            EntryInfo::File { name, path, size, ext_valid, created, modified } => EntryInfo::File {
                name: name.clone(),
                path: path.clone(),
                size: *size,
                ext_valid: *ext_valid,
                created: created.clone(),
                modified: modified.clone(),
            },
        })
        .collect()
}

#[test]
fn scanning_twice_yields_identical_content() {
    let tree = [
        ("root", vec![file("a.txt", "root/a.txt", 1), dir("root/sub")]),
        ("root/sub", vec![file("b.txt", "root/sub/b.txt", 2)]),
    ];
    let first = drive(&tree);
    let second = drive(&tree);
    assert_eq!(first, second);
}

#[test]
fn enumeration_order_does_not_change_content() {
    let one = [
        ("root", vec![file("a.txt", "root/a.txt", 1), dir("root/sub"), file("c", "root/c", 3)]),
        ("root/sub", vec![file("b.txt", "root/sub/b.txt", 2)]),
    ];
    let other = [
        ("root", vec![file("c", "root/c", 3), dir("root/sub"), file("a.txt", "root/a.txt", 1)]),
        ("root/sub", vec![file("b.txt", "root/sub/b.txt", 2)]),
    ];
    let mut first = drive(&one);
    let mut second = drive(&other);
    first.sort();
    second.sort();
    assert_eq!(first, second);
}

#[test]
fn deep_nesting_completes() {
    let depth: usize = 25;
    let mut s = Scanner::new("d0".to_string());
    let mut visited: usize = 0;
    while let Some(d) = s.next_dir() {
        let level: usize = d.rsplit('d').next().unwrap().parse().unwrap();
        visited += 1;
        if level < depth {
            s.add_entries(vec![dir(&format!("{}/d{}", d, level + 1))]);
        } else {
            s.add_entries(vec![file("leaf.txt", &format!("{}/leaf.txt", d), 7)]);
        }
    }
    assert_eq!(visited, depth + 1);
    let files = s.into_files();
    assert_eq!(files.len(), 1);
    assert_eq!(files[0].name, "leaf.txt");
    assert!(files[0].path.ends_with("/leaf.txt"));
    assert_eq!(files[0].path.chars().filter(|c| *c == '/').count(), depth + 1);
}

#[test]
fn missing_timestamps_fall_back_to_unknown() {
    let m = make_file_meta("a.txt".to_string(), "root/a.txt".to_string(), 9, true, None, None);
    assert_eq!(m.created, "unknown");
    assert_eq!(m.modified, "unknown");
    let m2 = make_file_meta(
        "a.txt".to_string(),
        "root/a.txt".to_string(),
        9,
        true,
        Some("12345".to_string()),
        Some("67890".to_string()),
    );
    assert_eq!(m2.created, "12345");
    assert_eq!(m2.modified, "67890");
    assert_eq!(m2.name, "a.txt");
    assert_eq!(m2.path, "root/a.txt");
    assert_eq!(m2.size, 9);
    assert_eq!(m2.file_type, "txt");
}

#[test]
fn subtrees_are_expanded_inline() {
    // a subdirectory's subtree stands at the subdirectory's own position
    // in its parent's listing, not after the parent's remaining files
    let mut s = Scanner::new("root".to_string());
    s.next_dir();
    s.add_entries(vec![
        file("f1", "root/f1", 1),
        dir("root/sub"),
        file("f2", "root/f2", 2),
    ]);
    assert_eq!(s.next_dir(), Some("root/sub".to_string()));
    s.add_entries(vec![file("g", "root/sub/g", 3)]);
    assert_eq!(s.next_dir(), None);
    assert!(s.done());
    let names: Vec<String> = s.into_files().into_iter().map(|f| f.name).collect();
    assert_eq!(names, vec!["f1".to_string(), "g".to_string(), "f2".to_string()]);
}

#[test]
fn undecodable_extension_yields_unknown() {
    // the platform name's extension could not be read as Unicode text:
    // the file type falls back to the marker, whatever the lossily
    // rendered name shows
    let m = make_file_meta(
        "data.b\u{FFFD}d".to_string(),
        "root/data.b\u{FFFD}d".to_string(),
        4,
        false,
        None,
        None,
    );
    assert_eq!(m.file_type, "unknown");
    // the same through a scan
    let mut s = Scanner::new("root".to_string());
    s.next_dir();
    s.add_entries(vec![EntryInfo::File {
        name: "data.b\u{FFFD}d".to_string(),
        path: "root/data.b\u{FFFD}d".to_string(),
        size: 4,
        ext_valid: false,
        created: None,
        modified: None,
    }]);
    assert_eq!(s.next_dir(), None);
    let files = s.into_files();
    assert_eq!(files.len(), 1);
    assert_eq!(files[0].file_type, "unknown");
}
