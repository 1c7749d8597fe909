use deepfinder::error::SystemError;
use deepfinder::paths::{file_name, parent_folder};
use deepfinder::system::{
    build_full_path, build_virtual_files, check_if_parent_folder_exists, get_invalid_chars,
    is_valid_file_path, is_valid_folder_path, manage_hash, CurrentDir, VirtualFile,
};

fn working_dir() -> CurrentDir {
    CurrentDir::Known("/srv/work".to_string())
}

#[test]
fn test_is_valid_file_path() {
    let relative_path: &str = "./test.txt";
    let invalid_path: &str = "test.txt\0";
    let absolute_path: &str = "/home/test.txt";
    let existing: Vec<String> = vec!["/srv/work".to_string(), "/home".to_string()];

    assert!(is_valid_file_path(relative_path, &working_dir(), &existing).is_ok());
    assert!(is_valid_file_path(absolute_path, &working_dir(), &existing).is_ok());
    assert!(is_valid_file_path(invalid_path, &working_dir(), &existing).is_err());
}

#[test]
fn test_is_valid_folder() {
    let relative_folder_path: &str = "./";
    let invalid_folder_path: &str = "./test1/test2/";
    let absolute_folder_path: &str = "/home/";
    let existing: Vec<String> = vec!["/srv/work/".to_string(), "/home/".to_string()];

    assert!(is_valid_folder_path(relative_folder_path, &working_dir(), &existing).is_ok());
    assert!(is_valid_folder_path(absolute_folder_path, &working_dir(), &existing).is_ok());
    assert!(is_valid_folder_path(invalid_folder_path, &working_dir(), &existing).is_err());
}

#[test]
fn test_check_if_folder_exists() {
    let valid_relative_file_path: &str = "./test.txt";
    let invalid_file_path: &str = "./test/test.txt";
    let valid_absolute_file_path: &str = "/home/test.txt";
    let existing: Vec<String> = vec![".".to_string(), "/home".to_string()];

    assert!(check_if_parent_folder_exists(valid_relative_file_path, &existing));
    assert!(!check_if_parent_folder_exists(invalid_file_path, &existing));
    assert!(check_if_parent_folder_exists(valid_absolute_file_path, &existing));
}

#[test]
fn test_build_full_path() {
    let current_path: &str = "/srv/work";

    assert_eq!(build_full_path("./", &working_dir()), Ok(current_path.to_string() + "/"));
    assert_eq!(
        build_full_path("./test.txt", &working_dir()),
        Ok(current_path.to_string() + "/test.txt")
    );
}

#[test]
fn test_build_virtual_files() {
    let file_paths: Vec<String> = vec!["/test1/test1.txt".to_string(), "/test2/test2.txt".to_string()];
    let virtual_files: Vec<VirtualFile> = build_virtual_files(file_paths, &[None, None]);

    assert_eq!(virtual_files.len(), 2);
    assert_eq!(virtual_files[0].name, "test1.txt");
    assert_eq!(virtual_files[1].name, "test2.txt");
    assert_eq!(virtual_files[0].checksums, None);
    assert_eq!(virtual_files[1].checksums, None);
    assert_eq!(virtual_files[0].size, 0);
    assert_eq!(virtual_files[1].size, 0);
    assert_eq!(virtual_files[0].full_path, "/test1/test1.txt");
    assert_eq!(virtual_files[1].full_path, "/test2/test2.txt");
}

#[test]
fn build_virtual_files_records_sizes_and_skips_paths_without_name() {
    let file_paths: Vec<String> = vec![
        "/data/a.bin".to_string(),
        "/data/..".to_string(),
        "/".to_string(),
        "/data/b.bin".to_string(),
        "/data/c.bin".to_string(),
    ];
    let files = build_virtual_files(file_paths, &[Some(42), Some(1), Some(2), None]);

    assert_eq!(files.len(), 3);
    assert_eq!(files[0].name, "a.bin");
    assert_eq!(files[0].size, 42);
    assert_eq!(files[1].name, "b.bin");
    assert_eq!(files[1].size, 0);
    assert_eq!(files[2].name, "c.bin");
    assert_eq!(files[2].size, 0);
    assert_eq!(files[2].full_path, "/data/c.bin");
}

#[test]
fn build_virtual_files_of_nothing_is_empty() {
    assert!(build_virtual_files(Vec::new(), &[]).is_empty());
}

#[test]
fn file_name_is_the_last_component() {
    assert_eq!(file_name("/home/test.txt"), Some("test.txt".to_string()));
    assert_eq!(file_name("test.txt"), Some("test.txt".to_string()));
    assert_eq!(file_name("./test.txt"), Some("test.txt".to_string()));
    assert_eq!(file_name("a/b/"), Some("b".to_string()));
    assert_eq!(file_name("a//b//"), Some("b".to_string()));
    assert_eq!(file_name("a/."), Some("a".to_string()));
    assert_eq!(file_name("a/./"), Some("a".to_string()));
    assert_eq!(file_name("dir/.hidden"), Some(".hidden".to_string()));
    assert_eq!(file_name("..."), Some("...".to_string()));
}

#[test]
fn file_name_of_a_path_without_one_is_none() {
    assert_eq!(file_name(""), None);
    assert_eq!(file_name("/"), None);
    assert_eq!(file_name("."), None);
    assert_eq!(file_name("./"), None);
    assert_eq!(file_name("/."), None);
    assert_eq!(file_name(".."), None);
    assert_eq!(file_name("a/.."), None);
    assert_eq!(file_name("a/../"), None);
}

#[test]
fn parent_folder_is_what_stands_before_the_last_component() {
    assert_eq!(parent_folder("/home/test.txt"), Some("/home".to_string()));
    assert_eq!(parent_folder("./test.txt"), Some(".".to_string()));
    assert_eq!(parent_folder("test.txt"), Some("".to_string()));
    assert_eq!(parent_folder("/test.txt"), Some("/".to_string()));
    assert_eq!(parent_folder("//test.txt"), Some("/".to_string()));
    assert_eq!(parent_folder("a/b/"), Some("a".to_string()));
    assert_eq!(parent_folder("a/./b"), Some("a".to_string()));
    assert_eq!(parent_folder("a//b"), Some("a".to_string()));
    assert_eq!(parent_folder("a/.."), Some("a".to_string()));
    assert_eq!(parent_folder("."), Some("".to_string()));
    assert_eq!(parent_folder("/"), None);
    assert_eq!(parent_folder(""), None);
}

#[test]
fn parent_of_a_bare_name_does_not_exist() {
    assert!(!check_if_parent_folder_exists("test.txt", &["/".to_string()]));
    assert!(check_if_parent_folder_exists("test.txt", &["".to_string()]));
    assert!(!check_if_parent_folder_exists("/", &["/".to_string(), "".to_string()]));
}

#[test]
fn full_path_of_an_absolute_path_is_itself() {
    assert_eq!(build_full_path("/etc/hosts", &CurrentDir::NotUnicode), Ok("/etc/hosts".to_string()));
    assert_eq!(
        build_full_path("/etc/hosts", &CurrentDir::Unavailable("gone".to_string())),
        Ok("/etc/hosts".to_string())
    );
}

#[test]
fn full_path_strips_every_leading_dot_slash() {
    assert_eq!(build_full_path("././a/./b", &working_dir()), Ok("/srv/work/a/./b".to_string()));
    assert_eq!(build_full_path("a.txt", &working_dir()), Ok("/srv/work/a.txt".to_string()));
    assert_eq!(build_full_path("", &working_dir()), Ok("/srv/work/".to_string()));
}

#[test]
fn full_path_needs_the_current_directory_for_a_relative_path() {
    assert_eq!(
        build_full_path("a.txt", &CurrentDir::NotUnicode),
        Err(SystemError::InvalidPath("a.txt".to_string()))
    );
    assert_eq!(
        build_full_path("a.txt", &CurrentDir::Unavailable("no such directory".to_string())),
        Err(SystemError::UnableToGetCurrentDir("no such directory".to_string()))
    );
}

#[test]
fn file_path_errors_come_in_order() {
    let existing: Vec<String> = vec!["/srv/work".to_string()];
    assert_eq!(
        is_valid_file_path("..", &working_dir(), &existing),
        Err(SystemError::InvalidPath("..".to_string()))
    );
    assert_eq!(
        is_valid_file_path("out\n.csv", &CurrentDir::NotUnicode, &existing),
        Err(SystemError::InvalidFilename("out\n.csv".to_string()))
    );
    assert_eq!(
        is_valid_file_path("dir/out\r", &working_dir(), &existing),
        Err(SystemError::InvalidFilename("out\r".to_string()))
    );
    assert_eq!(
        is_valid_file_path("out.csv", &CurrentDir::NotUnicode, &existing),
        Err(SystemError::InvalidPath("out.csv".to_string()))
    );
    assert_eq!(
        is_valid_file_path("missing/out.csv", &working_dir(), &existing),
        Err(SystemError::ParentFolderDoesntExist("missing/out.csv".to_string()))
    );
    assert_eq!(
        is_valid_file_path("out.csv", &working_dir(), &existing),
        Ok("/srv/work/out.csv".to_string())
    );
}

#[test]
fn folder_path_that_does_not_exist_is_reported_in_full() {
    assert_eq!(
        is_valid_folder_path("./nowhere", &working_dir(), &[]),
        Err(SystemError::InvalidFolder("/srv/work/nowhere".to_string()))
    );
    assert_eq!(
        is_valid_folder_path("nowhere", &CurrentDir::Unavailable("denied".to_string()), &[]),
        Err(SystemError::UnableToGetCurrentDir("denied".to_string()))
    );
}

#[test]
fn invalid_chars_are_the_four_of_unix() {
    assert_eq!(get_invalid_chars(), vec!['/', '\0', '\r', '\n']);
}

#[test]
fn manage_hash_rejects_unknown_algorithms() {
    assert_eq!(
        manage_hash(b"abc", "crc32"),
        Err(SystemError::UnsupportedHashAlgorithm("crc32".to_string()))
    );
    assert_eq!(
        manage_hash(b"abc", "MD5"),
        Err(SystemError::UnsupportedHashAlgorithm("MD5".to_string()))
    );
    assert_eq!(manage_hash(b"abc", ""), Err(SystemError::UnsupportedHashAlgorithm("".to_string())));
}

#[test]
fn update_checksum_keeps_one_digest_for_each_algorithm() {
    let mut file = VirtualFile {
        name: "a".to_string(),
        size: 1,
        full_path: "/a".to_string(),
        checksums: None,
    };
    file.update_checksum("sha1", "11".to_string());
    file.update_checksum("md5", "22".to_string());
    file.update_checksum("sha1", "33".to_string());
    let checksums = file.checksums.as_ref().unwrap();
    assert_eq!(checksums.len(), 2);
    assert_eq!(checksums.get("md5"), Some(&"22".to_string()));
    assert_eq!(checksums.get("sha1"), Some(&"33".to_string()));
    assert_eq!(checksums.get("sha256"), None);
    assert_eq!(file.duplicate(), file);
}
