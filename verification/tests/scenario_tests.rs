use deepfinder::cli::{CliOutput, FindingConfig};
use deepfinder::listing::{DirContent, DirEntry, EntryKind};
use deepfinder::paths::{file_name, parent_folder, starts_at_root, strip_leading_dots};
use deepfinder::scanner::search_files;
use deepfinder::scheduler::hash_handler;
use deepfinder::search_engine::{search_eventual_duplicates, DuplicateFile};
use deepfinder::system::build_virtual_files;
use std::path::Path;

fn leaf(name: &str) -> DirEntry {
    DirEntry { name: name.to_string(), kind: EntryKind::File }
}

fn branch(name: &str, entries: Vec<DirEntry>) -> DirEntry {
    DirEntry { name: name.to_string(), kind: EntryKind::Directory(DirContent::Entries(entries)) }
}

fn settings(by_name: bool, hidden: bool, hash: Option<Vec<String>>) -> FindingConfig {
    FindingConfig {
        search_path: "/root".to_string(),
        enable_search_by_name: by_name,
        include_hidden_files: hidden,
        hash,
        output: CliOutput::Standard,
    }
}

fn run(
    tree: &DirContent,
    config: &FindingConfig,
    content_of: &dyn Fn(&str) -> Option<Vec<u8>>,
) -> Vec<DuplicateFile> {
    let paths = search_files(&config.search_path, tree, config.include_hidden_files).unwrap();
    let sizes: Vec<Option<u64>> =
        paths.iter().map(|p| content_of(p).map(|c| c.len() as u64)).collect();
    let contents: Vec<Option<Vec<u8>>> = paths.iter().map(|p| content_of(p)).collect();
    let mut files = build_virtual_files(paths, &sizes);
    if let Some(algorithms) = &config.hash {
        hash_handler(algorithms, &mut files, &contents).unwrap();
    }
    search_eventual_duplicates(&files, config)
}

#[test]
fn identical_files_are_one_group_by_md5() {
    let tree = DirContent::Entries(vec![leaf("b.txt"), leaf("a.txt")]);
    let config = settings(false, false, Some(vec!["md5".to_string()]));
    let found = run(&tree, &config, &|_| Some(b"hello".to_vec()));

    assert_eq!(found.len(), 1);
    assert_eq!(found[0].paths, vec!["/root/a.txt".to_string(), "/root/b.txt".to_string()]);
    assert_eq!(found[0].nb_occurrences(), 2);
    assert_eq!(found[0].size, 5);
    let checksums = found[0].checksums.as_ref().unwrap();
    assert_eq!(checksums.len(), 1);
    assert_eq!(checksums.get("md5"), Some(&"5d41402abc4b2a76b9719d911017c592".to_string()));
    assert_eq!(checksums.get("md5").unwrap().len(), 32);
}

#[test]
fn same_name_different_content_is_one_group_by_name() {
    let tree = DirContent::Entries(vec![leaf("a.txt"), branch("sub", vec![leaf("a.txt")])]);
    let config = settings(true, false, None);
    let found = run(&tree, &config, &|p| Some(p.as_bytes().to_vec()));

    assert_eq!(found.len(), 1);
    assert_eq!(found[0].paths, vec!["/root/sub/a.txt".to_string(), "/root/a.txt".to_string()]);
    assert_eq!(found[0].nb_occurrences(), 2);
    assert_eq!(found[0].checksums, None);
}

#[test]
fn same_name_different_content_is_no_group_by_hash() {
    let tree = DirContent::Entries(vec![leaf("a.txt"), branch("sub", vec![leaf("a.txt")])]);
    let config = settings(false, false, Some(vec!["sha256".to_string()]));
    assert!(run(&tree, &config, &|p| Some(p.as_bytes().to_vec())).is_empty());
}

#[test]
fn single_file_is_no_duplicate_by_hash() {
    let tree = DirContent::Entries(vec![leaf("only.bin")]);
    let config = settings(false, false, Some(vec!["sha1".to_string(), "md5".to_string()]));
    assert!(run(&tree, &config, &|_| Some(vec![1, 2, 3])).is_empty());
}

#[test]
fn hidden_file_takes_part_only_when_included() {
    let tree = DirContent::Entries(vec![leaf(".secret"), leaf("copy")]);
    let hashes = Some(vec!["md5".to_string()]);

    let without = run(&tree, &settings(false, false, hashes.clone()), &|_| Some(b"same".to_vec()));
    assert!(without.is_empty());

    let with = run(&tree, &settings(false, true, hashes), &|_| Some(b"same".to_vec()));
    assert_eq!(with.len(), 1);
    assert_eq!(with[0].paths, vec!["/root/.secret".to_string(), "/root/copy".to_string()]);
    assert_eq!(with[0].name, ".secret");
}

#[test]
fn unreadable_file_is_left_out_of_hash_groups() {
    let tree = DirContent::Entries(vec![leaf("a"), leaf("b"), leaf("c")]);
    let config = settings(false, false, Some(vec!["md5".to_string()]));
    let found = run(&tree, &config, &|p| if p.ends_with("b") { None } else { Some(vec![9]) });
    assert_eq!(found.len(), 1);
    assert_eq!(found[0].paths, vec!["/root/a".to_string(), "/root/c".to_string()]);
}

#[test]
fn base_names_and_parents_agree_with_the_standard_library() {
    let samples = [
        "", "/", "//", ".", "..", "./", "../", "/.", "/..", "a", "a/", "a//", "/a", "//a", "a/b",
        "a//b", "a/b/", "a/./b", "a/b/.", "a/b/./", "a/b/..", "./a", "././a", "../a", "a/..",
        ".a", "a.", "..a", "...", "/a/b/c.txt", "a b/c d", "./test.txt", "/home/test.txt",
        "test.txt\0", "dir/.hidden", "/./", "/./a", "a/./", "./.", "é/ü", "a/ /b", "/a/./.",
    ];
    for sample in samples {
        let expected_name =
            Path::new(sample).file_name().and_then(|n| n.to_str()).map(|n| n.to_string());
        assert_eq!(file_name(sample), expected_name, "file name of {sample:?}");
        let expected_parent =
            Path::new(sample).parent().and_then(|p| p.to_str()).map(|p| p.to_string());
        assert_eq!(parent_folder(sample), expected_parent, "parent of {sample:?}");
    }
}

#[test]
fn leading_dots_and_roots_agree_with_the_standard_library() {
    let samples = [
        "", ".", "./", "./a", "././a", ".//a", "../a", "a/./b", "./.", "././", "/./a", ".a", "/",
        "/a", "a", "./../.", "é/./",
    ];
    for sample in samples {
        assert_eq!(strip_leading_dots(sample), sample.trim_start_matches("./"), "{sample:?}");
        assert_eq!(starts_at_root(sample), Path::new(sample).is_absolute(), "{sample:?}");
    }
}
