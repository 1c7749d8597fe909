use deepfinder::error::SystemError;
use deepfinder::listing::{is_scanned, sorted_listing, DirContent, DirEntry, EntryKind};
use deepfinder::scanner::{join_path, search_files};

fn plain_file(name: &str) -> DirEntry {
    DirEntry { name: name.to_string(), kind: EntryKind::File }
}

fn folder(name: &str, entries: Vec<DirEntry>) -> DirEntry {
    DirEntry { name: name.to_string(), kind: EntryKind::Directory(DirContent::Entries(entries)) }
}

fn locked_folder(name: &str, reason: &str) -> DirEntry {
    DirEntry {
        name: name.to_string(),
        kind: EntryKind::Directory(DirContent::Unreadable(reason.to_string())),
    }
}

fn socket(name: &str) -> DirEntry {
    DirEntry { name: name.to_string(), kind: EntryKind::Other }
}

fn sample_tree() -> DirContent {
    DirContent::Entries(vec![
        plain_file("b.txt"),
        folder("sub", vec![plain_file("z.txt"), plain_file(".hidden"), plain_file("a.txt")]),
        plain_file("a.txt"),
        plain_file(".secret"),
        folder(".git", vec![plain_file("config")]),
        socket("agent.sock"),
        folder("empty", vec![]),
        folder("Sub", vec![plain_file("k")]),
    ])
}

#[test]
fn scan_lists_nested_files_first_then_the_files_of_the_level() {
    let files = search_files("/root", &sample_tree(), false).unwrap();
    assert_eq!(
        files,
        vec![
            "/root/Sub/k".to_string(),
            "/root/sub/a.txt".to_string(),
            "/root/sub/z.txt".to_string(),
            "/root/a.txt".to_string(),
            "/root/b.txt".to_string(),
        ]
    );
}

#[test]
fn scan_with_hidden_entries_includes_them_at_every_depth() {
    let files = search_files("/root", &sample_tree(), true).unwrap();
    assert_eq!(
        files,
        vec![
            "/root/.git/config".to_string(),
            "/root/Sub/k".to_string(),
            "/root/sub/.hidden".to_string(),
            "/root/sub/a.txt".to_string(),
            "/root/sub/z.txt".to_string(),
            "/root/.secret".to_string(),
            "/root/a.txt".to_string(),
            "/root/b.txt".to_string(),
        ]
    );
}

#[test]
fn hidden_file_is_excluded_unless_asked_for() {
    let tree = DirContent::Entries(vec![plain_file(".secret"), plain_file("shown")]);
    assert_eq!(search_files("d", &tree, false), Ok(vec!["d/shown".to_string()]));
    assert_eq!(
        search_files("d", &tree, true),
        Ok(vec!["d/.secret".to_string(), "d/shown".to_string()])
    );
}

#[test]
fn scan_does_not_depend_on_the_order_of_the_listing() {
    let one = DirContent::Entries(vec![
        plain_file("c"),
        folder("d", vec![plain_file("2"), plain_file("1")]),
        plain_file("a"),
        plain_file("b"),
    ]);
    let other = DirContent::Entries(vec![
        plain_file("a"),
        plain_file("b"),
        plain_file("c"),
        folder("d", vec![plain_file("1"), plain_file("2")]),
    ]);
    let expected = vec![
        "r/d/1".to_string(),
        "r/d/2".to_string(),
        "r/a".to_string(),
        "r/b".to_string(),
        "r/c".to_string(),
    ];
    assert_eq!(search_files("r", &one, false), Ok(expected.clone()));
    assert_eq!(search_files("r", &other, false), Ok(expected));
    assert_eq!(search_files("r", &one, false), search_files("r", &one, false));
}

#[test]
fn scan_of_an_empty_directory_is_empty() {
    assert_eq!(search_files("/x", &DirContent::Entries(vec![]), true), Ok(vec![]));
}

#[test]
fn scan_lists_no_directory_and_no_other_entry() {
    let tree = DirContent::Entries(vec![folder("only", vec![folder("dirs", vec![])]), socket("s")]);
    assert_eq!(search_files("/x", &tree, true), Ok(vec![]));
}

#[test]
fn unreadable_root_fails_the_scan() {
    let tree = DirContent::Unreadable("permission denied".to_string());
    assert_eq!(
        search_files("/x", &tree, false),
        Err(SystemError::UnableToReadDir("permission denied".to_string()))
    );
}

#[test]
fn unreadable_nested_directory_fails_the_whole_scan() {
    let tree = DirContent::Entries(vec![
        plain_file("a"),
        folder("b", vec![plain_file("1"), locked_folder("deep", "no access")]),
        locked_folder("c", "later"),
    ]);
    assert_eq!(
        search_files("/x", &tree, false),
        Err(SystemError::UnableToReadDir("no access".to_string()))
    );
}

#[test]
fn unreadable_hidden_directory_matters_only_when_hidden_entries_are_scanned() {
    let tree = DirContent::Entries(vec![plain_file("a"), locked_folder(".cache", "locked")]);
    assert_eq!(search_files("/x", &tree, false), Ok(vec!["/x/a".to_string()]));
    assert_eq!(
        search_files("/x", &tree, true),
        Err(SystemError::UnableToReadDir("locked".to_string()))
    );
}

#[test]
fn names_are_sorted_by_code_point() {
    let entries = vec![
        plain_file("b"),
        plain_file("a"),
        plain_file("B"),
        plain_file("ab"),
        plain_file(""),
        plain_file("é"),
        plain_file("z"),
        plain_file("a"),
    ];
    assert_eq!(sorted_listing(&entries, true), vec![4, 2, 1, 7, 3, 0, 6, 5]);
    let mut by_std: Vec<usize> = (0..entries.len()).collect();
    by_std.sort_by(|x, y| entries[*x].name.cmp(&entries[*y].name));
    assert_eq!(sorted_listing(&entries, true), by_std);
}

#[test]
fn hidden_names_are_left_out_of_the_listing() {
    let entries = vec![plain_file(".b"), plain_file("a"), plain_file("."), plain_file("c.d")];
    assert_eq!(sorted_listing(&entries, false), vec![1, 3]);
    assert_eq!(sorted_listing(&entries, true), vec![2, 0, 1, 3]);
}

#[test]
fn join_path_puts_a_separator_between() {
    assert_eq!(join_path("/root", "a.txt"), "/root/a.txt");
    assert_eq!(join_path("", "a"), "/a");
    assert_eq!(join_path("rel/dir", ""), "rel/dir/");
}

#[test]
fn names_that_start_with_a_dot_are_scanned_only_on_demand() {
    assert!(is_scanned("name", false));
    assert!(is_scanned("", false));
    assert!(is_scanned("a.b", false));
    assert!(!is_scanned(".name", false));
    assert!(!is_scanned(".", false));
    assert!(is_scanned(".name", true));
    assert!(is_scanned("name", true));
}

#[test]
fn entries_of_the_same_name_keep_their_order() {
    let entries = vec![plain_file("b"), plain_file("a"), plain_file("b"), plain_file("a")];
    assert_eq!(sorted_listing(&entries, false), vec![1, 3, 0, 2]);
}

#[test]
fn no_path_is_listed_twice() {
    let files = search_files("/root", &sample_tree(), true).unwrap();
    let mut seen = files.clone();
    seen.sort();
    seen.dedup();
    assert_eq!(seen.len(), files.len());
}

#[test]
fn what_is_passed_over_does_not_change_the_scan() {
    let full = DirContent::Entries(vec![
        plain_file("a"),
        folder(".cache", vec![plain_file("x"), locked_folder("deep", "locked")]),
        folder("kept", vec![plain_file("k"), locked_folder(".trash", "gone")]),
        socket(".sock"),
    ]);
    let pruned = DirContent::Entries(vec![
        plain_file("a"),
        folder(".cache", vec![]),
        folder("kept", vec![plain_file("k"), folder(".trash", vec![])]),
        plain_file(".sock"),
    ]);
    assert_eq!(search_files("/r", &full, false), search_files("/r", &pruned, false));
    assert_eq!(
        search_files("/r", &full, false),
        Ok(vec!["/r/kept/k".to_string(), "/r/a".to_string()])
    );
    assert!(search_files("/r", &full, true).is_err());
}

#[test]
fn the_same_tree_listed_in_another_order_at_every_depth_scans_alike() {
    let one = DirContent::Entries(vec![
        plain_file("z"),
        folder("m", vec![
            folder("q", vec![plain_file("2"), plain_file("1"), plain_file(".x")]),
            plain_file("b"),
            plain_file("a"),
        ]),
        plain_file(".hidden"),
        folder("c", vec![plain_file("k")]),
        plain_file("a"),
    ]);
    let other = DirContent::Entries(vec![
        folder("c", vec![plain_file("k")]),
        plain_file("a"),
        folder("m", vec![
            plain_file("a"),
            folder("q", vec![plain_file(".x"), plain_file("1"), plain_file("2")]),
            plain_file("b"),
        ]),
        plain_file("z"),
        plain_file(".hidden"),
    ]);
    for hidden in [false, true] {
        let first = search_files("/t", &one, hidden).unwrap();
        let second = search_files("/t", &other, hidden).unwrap();
        assert_eq!(first, second);
    }
    assert_eq!(
        search_files("/t", &one, false).unwrap(),
        vec![
            "/t/c/k".to_string(),
            "/t/m/q/1".to_string(),
            "/t/m/q/2".to_string(),
            "/t/m/a".to_string(),
            "/t/m/b".to_string(),
            "/t/a".to_string(),
            "/t/z".to_string(),
        ]
    );
}

#[test]
fn files_of_one_directory_stand_together_in_ascending_order() {
    let files = search_files("/root", &sample_tree(), true).unwrap();
    let parts: Vec<(&str, &str)> = files.iter().map(|p| p.rsplit_once('/').unwrap()).collect();
    for i in 0..parts.len() {
        for j in i + 1..parts.len() {
            if parts[i].0 == parts[j].0 {
                assert!(parts[i].1 < parts[j].1);
                for between in &parts[i + 1..j] {
                    assert_eq!(between.0, parts[i].0);
                }
            }
        }
    }
}
