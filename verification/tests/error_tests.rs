use deepfinder::error::{ArgError, DeepFinderError, SystemError};

const HINT: &str = "\nUsage: deefinder <path> [options]\nTry 'deefinder --help' for more information.";

#[test]
fn argument_errors_end_with_the_usage() {
    assert_eq!(
        ArgError::NoPathSpecified.to_string(),
        format!("Error: no path specified.{HINT}")
    );
    assert_eq!(
        ArgError::SyntaxError.to_string(),
        format!("Error: syntax error, please check the command line arguments.{HINT}")
    );
}

#[test]
fn system_errors_name_their_subject() {
    let text = |s: &str| s.to_string();
    assert_eq!(
        SystemError::InvalidFolder(text("/x")).to_string(),
        format!("Error: invalid folder specified '/x'.\nThis folder may not exist.{HINT}")
    );
    assert_eq!(SystemError::InvalidPath(text("p q")).to_string(), "Error: invalid path 'p q'");
    assert_eq!(SystemError::InvalidFilename(text("a\nb")).to_string(), "Error: invalid filename 'a\nb'");
    assert_eq!(
        SystemError::UnableToCreateFile(text("/o.csv"), text("denied")).to_string(),
        "Error: unable to create file '/o.csv': denied"
    );
    assert_eq!(
        SystemError::UnableToSerialize(text("json"), text("bad")).to_string(),
        "Error: unable to serialize data to 'json' format: bad"
    );
    assert_eq!(
        SystemError::ParentFolderDoesntExist(text("d/f")).to_string(),
        "Error: parent folder doesn't exist 'd/f'"
    );
    assert_eq!(
        SystemError::UnableToReadDir(text("gone")).to_string(),
        "Error: unable to read directory 'gone'"
    );
    assert_eq!(
        SystemError::UnableToGetCurrentDir(text("why")).to_string(),
        "Error: unable to get current directory.\nwhy"
    );
    assert_eq!(
        SystemError::UnsupportedHashAlgorithm(text("crc32")).to_string(),
        "Error: unsupported hash algorithm 'crc32'"
    );
    assert_eq!(SystemError::ThreadError.to_string(), "Error: thread error");
}

#[test]
fn wrapped_errors_read_as_the_error_inside() {
    assert_eq!(
        DeepFinderError::ArgError(ArgError::SyntaxError).to_string(),
        ArgError::SyntaxError.to_string()
    );
    assert_eq!(
        DeepFinderError::SystemError(SystemError::ThreadError).to_string(),
        "Error: thread error"
    );
    assert_eq!(DeepFinderError::SystemError(SystemError::InvalidPath(String::new())).to_string(), "Error: invalid path ''");
}
