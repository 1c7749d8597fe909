use deepfinder::checksums::Checksums;
use deepfinder::cli::{CliOutput, FindingConfig};
use deepfinder::search_engine::{group_files, search_eventual_duplicates, DuplicateFile};
use deepfinder::system::VirtualFile;

fn record(name: &str, path: &str, size: u64, digests: &[(&str, &str)]) -> VirtualFile {
    let mut file = VirtualFile {
        name: name.to_string(),
        size,
        full_path: path.to_string(),
        checksums: None,
    };
    for (algorithm, digest) in digests {
        file.update_checksum(algorithm, digest.to_string());
    }
    file
}

fn config(by_name: bool) -> FindingConfig {
    FindingConfig {
        search_path: "/root".to_string(),
        enable_search_by_name: by_name,
        include_hidden_files: false,
        hash: None,
        output: CliOutput::Standard,
    }
}

fn digests(pairs: &[(&str, &str)]) -> Checksums {
    let mut checksums = Checksums::new();
    for (algorithm, digest) in pairs {
        checksums.insert(algorithm, digest.to_string());
    }
    checksums
}

#[test]
fn grouping_by_name_gathers_files_of_one_name() {
    let files = vec![
        record("a.txt", "/root/a.txt", 5, &[]),
        record("b.txt", "/root/b.txt", 6, &[]),
        record("a.txt", "/root/sub/a.txt", 7, &[("md5", "00")]),
        record("c.txt", "/root/c.txt", 8, &[]),
        record("b.txt", "/root/sub/b.txt", 9, &[]),
        record("a.txt", "/root/deep/a.txt", 10, &[]),
    ];
    let groups = group_files(&files, true);
    assert_eq!(
        groups,
        vec![
            DuplicateFile {
                paths: vec![
                    "/root/a.txt".to_string(),
                    "/root/sub/a.txt".to_string(),
                    "/root/deep/a.txt".to_string(),
                ],
                name: "a.txt".to_string(),
                checksums: None,
                size: 5,
            },
            DuplicateFile {
                paths: vec!["/root/b.txt".to_string(), "/root/sub/b.txt".to_string()],
                name: "b.txt".to_string(),
                checksums: None,
                size: 6,
            },
            DuplicateFile {
                paths: vec!["/root/c.txt".to_string()],
                name: "c.txt".to_string(),
                checksums: None,
                size: 8,
            },
        ]
    );
    assert_eq!(groups[0].nb_occurrences(), 3);
    assert_eq!(groups[2].nb_occurrences(), 1);
}

#[test]
fn every_record_is_in_exactly_one_group() {
    let files = vec![
        record("x", "/1", 1, &[]),
        record("y", "/2", 1, &[]),
        record("x", "/3", 1, &[]),
        record("z", "/4", 1, &[]),
        record("y", "/5", 1, &[]),
    ];
    let groups = group_files(&files, true);
    for file in &files {
        let holders: Vec<&DuplicateFile> =
            groups.iter().filter(|g| g.paths.contains(&file.full_path)).collect();
        assert_eq!(holders.len(), 1);
        assert_eq!(holders[0].name, file.name);
    }
    let total: usize = groups.iter().map(|g| g.paths.len()).sum();
    assert_eq!(total, files.len());
}

#[test]
fn same_name_in_two_directories_is_one_duplicate() {
    let files = vec![
        record("a.txt", "/root/a.txt", 3, &[]),
        record("a.txt", "/root/sub/a.txt", 4, &[]),
    ];
    let found = search_eventual_duplicates(&files, &config(true));
    assert_eq!(found.len(), 1);
    assert_eq!(found[0].paths, vec!["/root/a.txt".to_string(), "/root/sub/a.txt".to_string()]);
    assert_eq!(found[0].nb_occurrences(), 2);
    assert_eq!(found[0].name, "a.txt");
    assert_eq!(found[0].size, 3);
}

#[test]
fn groups_of_one_file_are_no_duplicates() {
    let files = vec![
        record("a", "/a", 1, &[("md5", "aa")]),
        record("b", "/b", 1, &[("md5", "bb")]),
        record("c", "/c", 1, &[("md5", "aa")]),
        record("d", "/d", 1, &[("md5", "dd")]),
    ];
    let found = search_eventual_duplicates(&files, &config(false));
    assert_eq!(found.len(), 1);
    assert_eq!(found[0].paths, vec!["/a".to_string(), "/c".to_string()]);
    assert_eq!(found[0].name, "a");
    assert_eq!(found[0].checksums, Some(digests(&[("md5", "aa")])));
}

#[test]
fn single_unique_file_gives_no_group() {
    let files = vec![record("only", "/only", 12, &[("sha256", "abcdef")])];
    assert_eq!(group_files(&files, false).len(), 1);
    assert!(search_eventual_duplicates(&files, &config(false)).is_empty());
    assert!(search_eventual_duplicates(&files, &config(true)).is_empty());
}

#[test]
fn no_record_gives_no_group() {
    assert!(group_files(&[], true).is_empty());
    assert!(search_eventual_duplicates(&[], &config(false)).is_empty());
}

#[test]
fn records_without_digest_are_passed_over_when_grouping_by_digest() {
    let mut emptied = record("c", "/c", 1, &[]);
    emptied.checksums = Some(Checksums::new());
    let files = vec![
        record("a", "/a", 1, &[]),
        record("b", "/b", 1, &[]),
        emptied.clone(),
        emptied,
    ];
    assert!(group_files(&files, false).is_empty());
    assert_eq!(group_files(&files, true).len(), 3);
}

#[test]
fn digest_order_does_not_change_the_key() {
    let first = record("one", "/one", 1, &[("md5", "aa"), ("sha256", "bb")]);
    let second = record("two", "/two", 1, &[("sha256", "bb"), ("md5", "aa")]);
    assert_eq!(
        first.checksums.as_ref().unwrap().grouping_key(),
        second.checksums.as_ref().unwrap().grouping_key()
    );
    assert_eq!(first.checksums.as_ref().unwrap().grouping_key(), "md5:aa|sha256:bb");
    let found = search_eventual_duplicates(&[first, second], &config(false));
    assert_eq!(found.len(), 1);
    assert_eq!(found[0].paths, vec!["/one".to_string(), "/two".to_string()]);
}

#[test]
fn different_digests_do_not_collide() {
    let files = vec![
        record("a", "/a", 1, &[("md5", "aa"), ("sha256", "bb")]),
        record("b", "/b", 1, &[("md5", "aa"), ("sha256", "cc")]),
        record("c", "/c", 1, &[("md5", "aa")]),
        record("d", "/d", 1, &[("sha256", "bb"), ("md5", "ab")]),
    ];
    assert_eq!(group_files(&files, false).len(), 4);
    assert!(search_eventual_duplicates(&files, &config(false)).is_empty());
}

#[test]
fn a_path_is_listed_once_in_its_group() {
    let files = vec![
        record("a", "/same", 1, &[]),
        record("a", "/same", 1, &[]),
        record("a", "/other", 1, &[]),
    ];
    let groups = group_files(&files, true);
    assert_eq!(groups.len(), 1);
    assert_eq!(groups[0].paths, vec!["/same".to_string(), "/other".to_string()]);
    assert_eq!(groups[0].nb_occurrences(), 2);
}

#[test]
fn checksums_are_kept_in_order_of_algorithm() {
    let checksums = digests(&[("sha256", "3"), ("md5", "1"), ("sha1", "2"), ("md5", "4")]);
    assert_eq!(checksums.len(), 3);
    assert!(!checksums.is_empty());
    assert_eq!(checksums.algorithm_at(0), "md5");
    assert_eq!(checksums.digest_at(0), "4");
    assert_eq!(checksums.algorithm_at(1), "sha1");
    assert_eq!(checksums.algorithm_at(2), "sha256");
    assert_eq!(checksums.grouping_key(), "md5:4|sha1:2|sha256:3");
    assert_eq!(checksums.duplicate(), checksums);
    assert_eq!(checksums.clone(), checksums);
    assert_eq!(Checksums::new().grouping_key(), "");
    assert!(Checksums::new().is_empty());
}

#[test]
fn many_records_are_grouped_as_a_plain_search_groups_them() {
    let mut files = Vec::new();
    for i in 0..600usize {
        let name = format!("n{}", (i * 37) % 101);
        let path = format!("/d{}/f{}", i % 7, (i * 13) % 211);
        files.push(record(&name, &path, i as u64, &[]));
    }
    let groups = group_files(&files, true);

    let mut expected: Vec<DuplicateFile> = Vec::new();
    for file in &files {
        match expected.iter_mut().find(|g| g.name == file.name) {
            Some(group) => {
                if !group.paths.contains(&file.full_path) {
                    group.paths.push(file.full_path.clone());
                }
            }
            None => expected.push(DuplicateFile {
                paths: vec![file.full_path.clone()],
                name: file.name.clone(),
                checksums: None,
                size: file.size,
            }),
        }
    }
    assert_eq!(groups, expected);
    assert_eq!(groups.len(), 101);
}
