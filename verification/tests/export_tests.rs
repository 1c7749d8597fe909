use deepfinder::checksums::Checksums;
use deepfinder::cli::{CliOutput, FindingConfig};
use deepfinder::error::DeepFinderError;
use deepfinder::export::{
    csv_display, csv_rows, export_findings_scheduler, records_for_export, simple_display, ExportJob,
};
use deepfinder::search_engine::DuplicateFile;

fn with_output(output: CliOutput) -> FindingConfig {
    FindingConfig {
        search_path: "/root".to_string(),
        enable_search_by_name: true,
        include_hidden_files: false,
        hash: None,
        output,
    }
}

fn hashed_group() -> DuplicateFile {
    let mut checksums = Checksums::new();
    checksums.insert("sha1", "bb".to_string());
    checksums.insert("md5", "aa".to_string());
    DuplicateFile {
        name: "photo.jpg".to_string(),
        paths: vec!["/p/1".to_string(), "/p/2".to_string(), "/p/3".to_string()],
        size: 1048576,
        checksums: Some(checksums),
    }
}

#[test]
fn test_csv_display_to_stdout() {
    let duplicates: Vec<DuplicateFile> = vec![DuplicateFile {
        name: "file1.txt".to_string(),
        paths: ["path1".to_string(), "path2".to_string()].into_iter().collect(),
        size: 123,
        checksums: None,
    }];
    assert!(csv_display(&duplicates.clone(), false).is_ok());
}

#[test]
fn csv_text_mentions_the_file() {
    let duplicates: Vec<DuplicateFile> = vec![DuplicateFile {
        name: "file2.txt".to_string(),
        paths: ["pathA".to_string(), "pathB".to_string()].into_iter().collect(),
        size: 456,
        checksums: None,
    }];
    let content: String = csv_display(&duplicates.clone(), true).unwrap();
    assert!(content.contains("file2.txt"));
    assert_eq!(
        content,
        "Name;Paths;Occurrences;Size;Checksums\nfile2.txt;\"pathA\npathB\";2;456;N/A\n"
    );
}

#[test]
fn csv_without_digests_has_four_columns() {
    let content = csv_display(&[hashed_group()], false).unwrap();
    assert_eq!(content, "Name;Paths;Occurrences;Size\nphoto.jpg;\"/p/1\n/p/2\n/p/3\";3;1048576\n");
}

#[test]
fn csv_with_digests_lists_them_one_to_a_line() {
    let content = csv_display(&[hashed_group()], true).unwrap();
    assert_eq!(
        content,
        "Name;Paths;Occurrences;Size;Checksums\nphoto.jpg;\"/p/1\n/p/2\n/p/3\";3;1048576;\"md5:aa\nsha1:bb\"\n"
    );
}

#[test]
fn csv_quotes_what_holds_the_delimiter() {
    let group = DuplicateFile {
        name: "a;b \"c\"".to_string(),
        paths: vec!["one".to_string()],
        size: 0,
        checksums: None,
    };
    assert_eq!(
        csv_display(&[group], false).unwrap(),
        "Name;Paths;Occurrences;Size\n\"a;b \"\"c\"\"\";one;1;0\n"
    );
}

#[test]
fn csv_of_nothing_is_the_title_line() {
    assert_eq!(csv_display(&[], false).unwrap(), "Name;Paths;Occurrences;Size\n");
    assert_eq!(csv_display(&[], true).unwrap(), "Name;Paths;Occurrences;Size;Checksums\n");
}

#[test]
fn csv_rows_hold_the_fields_as_texts() {
    let rows = csv_rows(&[hashed_group()], true);
    assert_eq!(
        rows,
        vec![
            vec![
                "Name".to_string(),
                "Paths".to_string(),
                "Occurrences".to_string(),
                "Size".to_string(),
                "Checksums".to_string(),
            ],
            vec![
                "photo.jpg".to_string(),
                "/p/1\n/p/2\n/p/3".to_string(),
                "3".to_string(),
                "1048576".to_string(),
                "md5:aa\nsha1:bb".to_string(),
            ],
        ]
    );
}

#[test]
fn plain_text_of_no_finding() {
    assert_eq!(simple_display(&[], true), "No duplicate files found.\n");
}

#[test]
fn plain_text_without_digests() {
    let plain = DuplicateFile {
        name: "notes".to_string(),
        paths: vec!["/n/1".to_string(), "/n/2".to_string()],
        size: 9,
        checksums: None,
    };
    assert_eq!(
        simple_display(&[hashed_group(), plain], false),
        "2 duplicate files found:\n\
         Duplicate file found: photo.jpg\n - /p/1\n - /p/2\n - /p/3\nOccurrences: 3\n\n\
         Duplicate file found: notes\n - /n/1\n - /n/2\nOccurrences: 2\n\n"
    );
}

#[test]
fn plain_text_with_digests() {
    assert_eq!(
        simple_display(&[hashed_group()], true),
        "1 duplicate files found:\n\
         Duplicate file found: photo.jpg\n - /p/1\n - /p/2\n - /p/3\nOccurrences: 3\n\
         Checksum (md5) : aa\nChecksum (sha1) : bb\n\n"
    );
}

#[test]
fn records_keep_their_digests_only_when_asked() {
    let kept = records_for_export(&[hashed_group()], true);
    assert_eq!(kept, vec![hashed_group()]);
    let dropped = records_for_export(&[hashed_group()], false);
    assert_eq!(dropped.len(), 1);
    assert_eq!(dropped[0].checksums, None);
    assert_eq!(dropped[0].name, "photo.jpg");
    assert_eq!(dropped[0].paths, hashed_group().paths);
    assert_eq!(dropped[0].size, 1048576);
}

#[test]
fn scheduler_hands_out_the_job_of_each_output() {
    let groups = vec![hashed_group()];
    let jobs: Vec<(CliOutput, ExportJob)> = vec![
        (
            CliOutput::Standard,
            ExportJob::Plain { content: simple_display(&groups, true) },
        ),
        (
            CliOutput::CsvStdin,
            ExportJob::Csv { path: None, content: csv_display(&groups, true).unwrap() },
        ),
        (
            CliOutput::CsvFile("/out/f.csv".to_string()),
            ExportJob::Csv {
                path: Some("/out/f.csv".to_string()),
                content: csv_display(&groups, true).unwrap(),
            },
        ),
        (CliOutput::JsonStdin, ExportJob::Json { path: None, records: groups.clone() }),
        (
            CliOutput::JsonFile("/out/f.json".to_string()),
            ExportJob::Json { path: Some("/out/f.json".to_string()), records: groups.clone() },
        ),
        (CliOutput::XmlStdin, ExportJob::Xml { path: None, records: groups.clone() }),
        (
            CliOutput::XmlFile("/out/f.xml".to_string()),
            ExportJob::Xml { path: Some("/out/f.xml".to_string()), records: groups.clone() },
        ),
    ];
    for (output, expected) in jobs {
        let job: Result<ExportJob, DeepFinderError> =
            export_findings_scheduler(&groups, &with_output(output), true);
        assert_eq!(job, Ok(expected));
    }
}

#[test]
fn scheduler_drops_digests_that_are_not_asked_for() {
    let job = export_findings_scheduler(&[hashed_group()], &with_output(CliOutput::JsonStdin), false);
    match job {
        Ok(ExportJob::Json { path: None, records }) => {
            assert_eq!(records.len(), 1);
            assert_eq!(records[0].checksums, None);
        }
        other => panic!("unexpected job: {other:?}"),
    }
}
