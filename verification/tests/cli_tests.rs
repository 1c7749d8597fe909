use deepfinder::cli::{
    check_output_arg, parse_user_choices, paths_to_probe, CliOutput, FindingConfig, UserChoices,
};
use deepfinder::error::{ArgError, DeepFinderError, SystemError};
use deepfinder::system::CurrentDir;

fn no_choice() -> UserChoices {
    UserChoices {
        path: None,
        name: false,
        hash_algorithm: None,
        hidden_files: false,
        csv_display: false,
        csv_output: None,
        json_display: false,
        json_output: None,
        xml_display: false,
        xml_output: None,
    }
}

fn home() -> CurrentDir {
    CurrentDir::Known("/home/user".to_string())
}

#[test]
fn test_parse_user_choices() {
    let existing: Vec<String> = vec!["/tmp".to_string()];
    let search_path: String = "/tmp".to_string();
    let matches = UserChoices {
        path: Some("/tmp".to_string()),
        hash_algorithm: Some(vec!["md5".to_string(), "sha256".to_string()]),
        hidden_files: true,
        name: true,
        csv_output: Some("/tmp/output.csv".to_string()),
        ..no_choice()
    };
    let output: CliOutput = CliOutput::CsvFile("/tmp/output.csv".to_string());

    let expected: FindingConfig = FindingConfig {
        search_path,
        enable_search_by_name: true,
        include_hidden_files: true,
        hash: Some(vec!["md5".to_string(), "sha256".to_string()]),
        output,
    };
    assert_eq!(parse_user_choices(&matches, &home(), &existing).unwrap(), expected);

    let matches_error1 = UserChoices {
        hash_algorithm: Some(vec!["md5".to_string(), "sha256".to_string()]),
        hidden_files: true,
        name: true,
        json_output: Some("./output.json".to_string()),
        ..no_choice()
    };
    assert_eq!(
        parse_user_choices(&matches_error1, &home(), &existing).unwrap_err(),
        DeepFinderError::ArgError(ArgError::NoPathSpecified)
    );

    let matches_error2 = UserChoices {
        path: Some("/test".to_string()),
        hash_algorithm: Some(vec!["md5".to_string(), "sha256".to_string()]),
        hidden_files: true,
        name: true,
        json_output: Some("./output.json".to_string()),
        ..no_choice()
    };
    assert!(parse_user_choices(&matches_error2, &home(), &existing).is_err());

    let matches_error3 = UserChoices {
        path: Some("/tmp".to_string()),
        hash_algorithm: Some(vec!["md5".to_string(), "sha256".to_string()]),
        hidden_files: true,
        name: true,
        json_output: Some("/test/output.json".to_string()),
        ..no_choice()
    };
    assert!(parse_user_choices(&matches_error3, &home(), &existing).is_err());
}

#[test]
fn search_is_by_name_unless_only_hashes_are_asked_for() {
    let existing = vec!["/tmp".to_string()];
    let bare = UserChoices { path: Some("/tmp".to_string()), ..no_choice() };
    let config = parse_user_choices(&bare, &home(), &existing).unwrap();
    assert!(config.enable_search_by_name);
    assert!(!config.include_hidden_files);
    assert_eq!(config.hash, None);
    assert_eq!(config.output, CliOutput::Standard);

    let hashed = UserChoices { hash_algorithm: Some(vec!["sha1".to_string()]), ..bare.clone() };
    let config = parse_user_choices(&hashed, &home(), &existing).unwrap();
    assert!(!config.enable_search_by_name);
    assert_eq!(config.hash, Some(vec!["sha1".to_string()]));

    let both = UserChoices { name: true, ..hashed };
    assert!(parse_user_choices(&both, &home(), &existing).unwrap().enable_search_by_name);
}

#[test]
fn search_path_loses_the_separators_at_its_end() {
    let existing = vec!["/data/in//".to_string(), "/home/user/in/".to_string()];
    let absolute = UserChoices { path: Some("/data/in//".to_string()), ..no_choice() };
    assert_eq!(parse_user_choices(&absolute, &home(), &existing).unwrap().search_path, "/data/in");
    let relative = UserChoices { path: Some("./in/".to_string()), ..no_choice() };
    assert_eq!(
        parse_user_choices(&relative, &home(), &existing).unwrap().search_path,
        "/home/user/in"
    );
}

#[test]
fn first_output_in_order_counts() {
    let existing = vec!["/tmp".to_string()];
    let base = UserChoices { path: Some("/tmp".to_string()), ..no_choice() };
    let out = |choices: UserChoices| parse_user_choices(&choices, &home(), &existing).unwrap().output;

    assert_eq!(out(UserChoices { csv_display: true, ..base.clone() }), CliOutput::CsvStdin);
    assert_eq!(out(UserChoices { json_display: true, ..base.clone() }), CliOutput::JsonStdin);
    assert_eq!(out(UserChoices { xml_display: true, ..base.clone() }), CliOutput::XmlStdin);
    assert_eq!(
        out(UserChoices { json_output: Some("/tmp/o.json".to_string()), ..base.clone() }),
        CliOutput::JsonFile("/tmp/o.json".to_string())
    );
    assert_eq!(
        out(UserChoices { xml_output: Some("/tmp/o.xml".to_string()), ..base.clone() }),
        CliOutput::XmlFile("/tmp/o.xml".to_string())
    );
    assert_eq!(
        out(UserChoices {
            xml_display: true,
            json_output: Some("/tmp/o.json".to_string()),
            ..base.clone()
        }),
        CliOutput::JsonFile("/tmp/o.json".to_string())
    );
    assert_eq!(
        out(UserChoices {
            csv_display: true,
            csv_output: Some("/nowhere/o.csv".to_string()),
            ..base.clone()
        }),
        CliOutput::CsvStdin
    );
}

#[test]
fn search_path_is_checked_before_the_output() {
    let choices = UserChoices {
        path: Some("/missing".to_string()),
        csv_output: Some("/also/missing.csv".to_string()),
        ..no_choice()
    };
    assert_eq!(
        parse_user_choices(&choices, &home(), &[]),
        Err(DeepFinderError::SystemError(SystemError::InvalidFolder("/missing".to_string())))
    );
}

#[test]
fn output_path_errors_are_system_errors() {
    let existing = vec!["/tmp".to_string()];
    assert_eq!(
        check_output_arg("/test/output.json", &home(), &existing),
        Err(DeepFinderError::SystemError(SystemError::ParentFolderDoesntExist(
            "/test/output.json".to_string()
        )))
    );
    assert_eq!(
        check_output_arg("/tmp/output.json", &home(), &existing),
        Ok("/tmp/output.json".to_string())
    );
    assert_eq!(
        check_output_arg("/tmp/", &home(), &existing),
        Err(DeepFinderError::SystemError(SystemError::ParentFolderDoesntExist("/tmp/".to_string())))
    );
}

#[test]
fn probes_are_the_search_path_and_the_parents_of_the_outputs() {
    let choices = UserChoices {
        path: Some("./in/".to_string()),
        csv_output: Some("out/a.csv".to_string()),
        json_output: Some("/abs/b.json".to_string()),
        xml_output: Some("/".to_string()),
        ..no_choice()
    };
    assert_eq!(
        paths_to_probe(&choices, &home()),
        vec!["/home/user/in/".to_string(), "/home/user/out".to_string(), "/abs".to_string()]
    );
    assert_eq!(paths_to_probe(&no_choice(), &home()), Vec::<String>::new());
    assert_eq!(
        paths_to_probe(&choices, &CurrentDir::NotUnicode),
        vec!["/abs".to_string()]
    );
}

#[test]
fn paths_that_are_not_probed_do_not_matter() {
    let choices = UserChoices {
        path: Some("/tmp".to_string()),
        json_output: Some("/tmp/o.json".to_string()),
        ..no_choice()
    };
    let probed = paths_to_probe(&choices, &home());
    let mut padded = probed.clone();
    padded.push("/somewhere/else".to_string());
    padded.insert(0, "/home/user".to_string());
    assert_eq!(
        parse_user_choices(&choices, &home(), &probed),
        parse_user_choices(&choices, &home(), &padded)
    );
    assert!(parse_user_choices(&choices, &home(), &probed).is_ok());
}

#[test]
fn search_path_is_trimmed_as_the_standard_library_trims() {
    for folder in ["/a/b", "/a/b/", "/a/b//", "/a/b\\", "/a/b/\\/", "/", "//", "/a\\b/"] {
        let choices = UserChoices { path: Some(folder.to_string()), ..no_choice() };
        let config = parse_user_choices(&choices, &home(), &[folder.to_string()]).unwrap();
        assert_eq!(config.search_path, folder.trim_end_matches(['/', '\\']), "{folder:?}");
    }
}
