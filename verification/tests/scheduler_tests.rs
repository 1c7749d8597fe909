use deepfinder::error::{DeepFinderError, SystemError};
use deepfinder::scheduler::{
    check_algorithms, hash_chunk, hash_file, hash_handler, merge_chunk, merge_results,
    record_digest, run_pass, split_chunks, start_hashing, take_chunk,
};
use deepfinder::system::VirtualFile;

fn entry(name: &str, path: &str) -> VirtualFile {
    VirtualFile { name: name.to_string(), size: 0, full_path: path.to_string(), checksums: None }
}

fn catalogue_of(count: usize) -> (Vec<VirtualFile>, Vec<Option<Vec<u8>>>) {
    let mut files = Vec::new();
    let mut contents = Vec::new();
    for i in 0..count {
        files.push(entry(&format!("f{i}"), &format!("/data/f{i}")));
        contents.push(if i % 4 == 3 { None } else { Some(vec![(i % 3) as u8; i % 5]) });
    }
    (files, contents)
}

#[test]
fn every_readable_file_gets_its_digest() {
    let mut files = vec![entry("a", "/a"), entry("b", "/b"), entry("c", "/c")];
    let contents = vec![Some(b"abc".to_vec()), None, Some(b"".to_vec())];
    let algorithms = vec!["md5".to_string()];
    assert_eq!(hash_handler(&algorithms, &mut files, &contents), Ok(()));

    assert_eq!(files.len(), 3);
    assert_eq!(
        files[0].checksums.as_ref().unwrap().get("md5"),
        Some(&"900150983cd24fb0d6963f7d28e17f72".to_string())
    );
    assert_eq!(files[1].checksums, None);
    assert_eq!(
        files[2].checksums.as_ref().unwrap().get("md5"),
        Some(&"d41d8cd98f00b204e9800998ecf8427e".to_string())
    );
    assert_eq!(files[0].full_path, "/a");
    assert_eq!(files[1].full_path, "/b");
    assert_eq!(files[2].full_path, "/c");
}

#[test]
fn several_algorithms_are_all_recorded() {
    let mut files = vec![entry("a", "/a"), entry("b", "/b")];
    let contents = vec![Some(b"abc".to_vec()), Some(b"abc".to_vec())];
    let algorithms = vec!["sha256".to_string(), "md5".to_string(), "sha1".to_string()];
    assert_eq!(hash_handler(&algorithms, &mut files, &contents), Ok(()));
    for file in &files {
        let checksums = file.checksums.as_ref().unwrap();
        assert_eq!(checksums.len(), 3);
        assert_eq!(
            checksums.grouping_key(),
            "md5:900150983cd24fb0d6963f7d28e17f72|sha1:a9993e364706816aba3e25717850c26c9cd0d89d|sha256:ba7816bf8f01cfea414140de5dae2223b00361a396177a9cb410ff61f20015ad"
        );
    }
}

#[test]
fn unknown_algorithm_is_reported_before_any_hashing() {
    let mut files = vec![entry("a", "/a")];
    let contents = vec![Some(b"abc".to_vec())];
    let algorithms = vec!["md5".to_string(), "crc32".to_string(), "nope".to_string()];
    assert_eq!(
        hash_handler(&algorithms, &mut files, &contents),
        Err(DeepFinderError::SystemError(SystemError::UnsupportedHashAlgorithm("crc32".to_string())))
    );
    assert_eq!(files, vec![entry("a", "/a")]);
}

#[test]
fn no_algorithm_leaves_the_records_alone() {
    let (mut files, contents) = catalogue_of(5);
    let before = files.clone();
    assert_eq!(hash_handler(&[].to_vec(), &mut files, &contents), Ok(()));
    assert_eq!(files, before);
}

#[test]
fn missing_contents_count_as_unreadable() {
    let mut files = vec![entry("a", "/a"), entry("b", "/b")];
    let contents = vec![Some(b"abc".to_vec())];
    assert_eq!(hash_handler(&vec!["sha1".to_string()], &mut files, &contents), Ok(()));
    assert!(files[0].checksums.is_some());
    assert_eq!(files[1].checksums, None);
}

#[test]
fn a_pass_does_not_depend_on_the_number_of_cores() {
    let (files, contents) = catalogue_of(23);
    let mut reference = files.clone();
    run_pass(&mut reference, "sha1", &contents, 1);
    assert_eq!(reference.len(), files.len());
    for cores in [0, 2, 3, 4, 7, 22, 23, 24, 100] {
        let mut other = files.clone();
        run_pass(&mut other, "sha1", &contents, cores);
        assert_eq!(other, reference);
    }
    for (i, file) in reference.iter().enumerate() {
        assert_eq!(file.full_path, files[i].full_path);
        assert_eq!(file.checksums.is_some(), contents[i].is_some());
    }
}

#[test]
fn a_pass_with_an_unknown_algorithm_changes_nothing() {
    let (files, contents) = catalogue_of(6);
    let mut other = files.clone();
    run_pass(&mut other, "sha0", &contents, 3);
    assert_eq!(other, files);
}

#[test]
fn take_chunk_copies_a_range() {
    let (files, _) = catalogue_of(6);
    assert_eq!(take_chunk(&files, 2, 5), files[2..5].to_vec());
    assert_eq!(take_chunk(&files, 3, 3), vec![]);
    assert_eq!(take_chunk(&files, 0, 6), files);
}

#[test]
fn hash_chunk_hashes_the_records_of_a_chunk_by_their_place() {
    let (files, contents) = catalogue_of(8);
    let mut chunk = take_chunk(&files, 2, 6);
    hash_chunk(&mut chunk, 2, "md5", &contents);
    assert_eq!(chunk.len(), 4);
    for (offset, file) in chunk.iter().enumerate() {
        let mut expected = files[2 + offset].clone();
        if let Some(bytes) = &contents[2 + offset] {
            hash_file(&mut expected, "md5", bytes);
        }
        assert_eq!(*file, expected);
    }
    assert!(chunk[0].checksums.is_some());
    assert_eq!(chunk[1].checksums, None);
}

#[test]
fn hash_chunk_past_the_contents_hashes_nothing() {
    let (files, contents) = catalogue_of(4);
    let mut chunk = files.clone();
    hash_chunk(&mut chunk, 4, "md5", &contents);
    assert_eq!(chunk, files);
    hash_chunk(&mut chunk, usize::MAX, "md5", &contents);
    assert_eq!(chunk, files);
    hash_chunk(&mut chunk, 2, "md5", &contents);
    assert!(chunk[0].checksums.is_some());
    assert_eq!(chunk[1].checksums, None);
    assert_eq!(chunk[2], files[2]);
    assert_eq!(chunk[3], files[3]);
}

#[test]
fn hash_file_records_the_digest_of_the_content() {
    let mut file = entry("a", "/a");
    hash_file(&mut file, "sha1", b"abc");
    assert_eq!(
        file.checksums.as_ref().unwrap().get("sha1"),
        Some(&"a9993e364706816aba3e25717850c26c9cd0d89d".to_string())
    );
    let before = file.clone();
    hash_file(&mut file, "sha-1", b"abc");
    assert_eq!(file, before);
}

#[test]
fn merge_updates_the_record_of_the_same_path() {
    let mut records = vec![entry("a", "/a"), entry("b", "/b"), entry("c", "/c")];
    records[1].update_checksum("md5", "old".to_string());
    let mut from_worker = vec![entry("c", "/c"), entry("b", "/b"), entry("a", "/a")];
    from_worker[0].update_checksum("sha1", "cc".to_string());
    from_worker[1].update_checksum("sha1", "bb".to_string());
    from_worker[1].update_checksum("md5", "ignored".to_string());

    merge_chunk(&mut records, &from_worker, "sha1");

    assert_eq!(records.len(), 3);
    assert_eq!(records[0], entry("a", "/a"));
    assert_eq!(records[1].checksums.as_ref().unwrap().grouping_key(), "md5:old|sha1:bb");
    assert_eq!(records[2].checksums.as_ref().unwrap().grouping_key(), "sha1:cc");
}

#[test]
fn merge_adds_a_record_that_the_catalogue_lacks() {
    let mut records = vec![entry("a", "/a")];
    let mut stray = entry("x", "/x");
    stray.update_checksum("md5", "77".to_string());
    merge_chunk(&mut records, &vec![stray.clone(), stray.clone()], "md5");
    assert_eq!(records, vec![entry("a", "/a"), stray]);
}

#[test]
fn algorithms_are_checked_in_order() {
    let known = vec!["md5".to_string(), "whirlpool".to_string(), "sha3-512".to_string()];
    assert_eq!(check_algorithms(&known), Ok(()));
    assert_eq!(check_algorithms(&[]), Ok(()));
    let mixed = vec!["md5".to_string(), "md6".to_string(), "md7".to_string()];
    assert_eq!(
        check_algorithms(&mixed),
        Err(DeepFinderError::SystemError(SystemError::UnsupportedHashAlgorithm("md6".to_string())))
    );
}

#[test]
fn repeated_algorithm_changes_nothing_more() {
    let (files, contents) = catalogue_of(9);
    let mut once = files.clone();
    hash_handler(&["sha256".to_string()], &mut once, &contents).unwrap();
    let mut twice = files.clone();
    hash_handler(&["sha256".to_string(), "sha256".to_string()], &mut twice, &contents).unwrap();
    assert_eq!(once, twice);
}

#[test]
fn order_of_algorithms_does_not_change_the_digests() {
    let (files, contents) = catalogue_of(9);
    let mut one = files.clone();
    hash_handler(&["sha1".to_string(), "md5".to_string()], &mut one, &contents).unwrap();
    let mut other = files.clone();
    hash_handler(&["md5".to_string(), "sha1".to_string()], &mut other, &contents).unwrap();
    assert_eq!(one, other);
}

#[test]
fn chunks_hold_every_record_once_and_none_is_empty() {
    for count in [0usize, 1, 2, 5, 8, 9, 17] {
        let (files, _) = catalogue_of(count);
        for cores in [0usize, 1, 2, 4, 8, 16, 32] {
            let chunks = split_chunks(&files, cores);
            assert!(chunks.len() <= cores.max(1));
            assert!(chunks.iter().all(|chunk| !chunk.is_empty()));
            let joined: Vec<VirtualFile> = chunks.into_iter().flatten().collect();
            assert_eq!(joined, files);
        }
    }
}

#[test]
fn chunks_are_merged_in_whatever_order_the_workers_hash() {
    let (files, contents) = catalogue_of(10);
    let mut expected = files.clone();
    run_pass(&mut expected, "md5", &contents, 3);

    let mut chunks = split_chunks(&files, 3);
    assert_eq!(chunks.len(), 3);
    let mut offset = files.len();
    for chunk in chunks.iter_mut().rev() {
        offset -= chunk.len();
        for (j, file) in chunk.iter_mut().enumerate().rev() {
            if let Some(bytes) = &contents[offset + j] {
                hash_file(file, "md5", bytes);
            }
        }
    }
    let mut merged = files.clone();
    merge_results(&mut merged, &chunks, "md5");
    assert_eq!(merged, expected);
}

#[test]
fn merge_takes_the_first_record_of_a_path_that_occurs_twice() {
    let mut records = vec![entry("a", "/same"), entry("b", "/other"), entry("c", "/same")];
    let mut result = entry("c", "/same");
    result.update_checksum("md5", "11".to_string());
    let mut second = entry("x", "/new");
    second.update_checksum("md5", "22".to_string());
    let mut third = entry("y", "/new");
    third.update_checksum("md5", "33".to_string());
    merge_chunk(&mut records, &[result, second.clone(), third], "md5");

    assert_eq!(records.len(), 4);
    assert_eq!(records[0].checksums.as_ref().unwrap().grouping_key(), "md5:11");
    assert_eq!(records[1], entry("b", "/other"));
    assert_eq!(records[2], entry("c", "/same"));
    assert_eq!(records[3].name, "x");
    assert_eq!(records[3].checksums.as_ref().unwrap().grouping_key(), "md5:33");
}

#[test]
fn a_file_hashed_piece_by_piece_is_a_file_hashed_from_its_content() {
    let content = b"the quick brown fox jumps over the lazy dog".to_vec();
    for name in ["md5", "sha512", "sha3-256", "blake2s-256", "whirlpool"] {
        let mut whole = entry("a", "/a");
        whole.update_checksum("sha1", "kept".to_string());
        let mut pieces = whole.clone();
        hash_file(&mut whole, name, &content);

        let mut stream = start_hashing(name).unwrap();
        for piece in content.chunks(5) {
            stream = stream.update(piece);
        }
        record_digest(&mut pieces, name, stream);
        assert_eq!(pieces, whole);
        assert_eq!(pieces.checksums.as_ref().unwrap().len(), 2);
    }
}

#[test]
fn hashing_does_not_start_for_an_unknown_algorithm() {
    assert!(start_hashing("md4").is_none());
    assert!(start_hashing("").is_none());
    assert!(start_hashing("SHA1").is_none());
    assert!(start_hashing("sha1").is_some());
}
