//! The errors of the library and the messages shown for them.

use vstd::prelude::*;
use vstd::string::StringExecFns;

verus! {

/// Any failure of a run: a bad command line, or a failure while working.
#[derive(Debug, Eq, PartialEq)]
pub enum DeepFinderError {
    ArgError(ArgError),
    SystemError(SystemError),
}

/// A command line that cannot be used.
#[derive(Debug, Eq, PartialEq)]
pub enum ArgError {
    NoPathSpecified,
    SyntaxError,
}

/// A failure met while validating paths, scanning, hashing or exporting.
#[derive(Debug, Eq, PartialEq)]
pub enum SystemError {
    InvalidPath(String),
    InvalidFilename(String),
    UnableToCreateFile(String, String),
    UnableToSerialize(String, String),
    ParentFolderDoesntExist(String),
    InvalidFolder(String),
    UnableToReadDir(String),
    UnableToGetCurrentDir(String),
    UnsupportedHashAlgorithm(String),
    ThreadError,
}

/// What a `SystemError` stands for: the same cases, with their texts as
/// sequences of characters.
pub enum SystemFailure {
    InvalidPath(Seq<char>),
    InvalidFilename(Seq<char>),
    UnableToCreateFile(Seq<char>, Seq<char>),
    UnableToSerialize(Seq<char>, Seq<char>),
    ParentFolderDoesntExist(Seq<char>),
    InvalidFolder(Seq<char>),
    UnableToReadDir(Seq<char>),
    UnableToGetCurrentDir(Seq<char>),
    UnsupportedHashAlgorithm(Seq<char>),
    ThreadError,
}

/// What a `DeepFinderError` stands for.
pub enum Failure {
    ArgError(ArgError),
    SystemError(SystemFailure),
}

impl View for SystemError {
    type V = SystemFailure;

    open spec fn view(&self) -> SystemFailure {
        match self {
            SystemError::InvalidPath(p) => SystemFailure::InvalidPath(p@),
            SystemError::InvalidFilename(f) => SystemFailure::InvalidFilename(f@),
            SystemError::UnableToCreateFile(p, e) => SystemFailure::UnableToCreateFile(p@, e@),
            SystemError::UnableToSerialize(f, e) => SystemFailure::UnableToSerialize(f@, e@),
            SystemError::ParentFolderDoesntExist(p) => SystemFailure::ParentFolderDoesntExist(p@),
            SystemError::InvalidFolder(p) => SystemFailure::InvalidFolder(p@),
            SystemError::UnableToReadDir(p) => SystemFailure::UnableToReadDir(p@),
            SystemError::UnableToGetCurrentDir(e) => SystemFailure::UnableToGetCurrentDir(e@),
            SystemError::UnsupportedHashAlgorithm(h) => SystemFailure::UnsupportedHashAlgorithm(h@),
            SystemError::ThreadError => SystemFailure::ThreadError,
        }
    }
}

impl View for DeepFinderError {
    type V = Failure;

    open spec fn view(&self) -> Failure {
        match self {
            DeepFinderError::ArgError(e) => Failure::ArgError(*e),
            DeepFinderError::SystemError(e) => Failure::SystemError(e@),
        }
    }
}

/// The two closing lines shared by the messages about the command line.
pub open spec fn usage_hint() -> Seq<char> {
    "\nUsage: deefinder <path> [options]\nTry 'deefinder --help' for more information."@
}

impl ArgError {
    /// The text shown for this error.
    pub open spec fn message(self) -> Seq<char> {
        match self {
            ArgError::NoPathSpecified => "Error: no path specified."@ + usage_hint(),
            ArgError::SyntaxError =>
                "Error: syntax error, please check the command line arguments."@ + usage_hint(),
        }
    }

    /// Renders the error as the text shown to the user.
    pub fn to_string(&self) -> (s: String)
        ensures
            s@ == self.message(),
    {
        let mut s: String = match self {
            ArgError::NoPathSpecified => String::from_str("Error: no path specified."),
            ArgError::SyntaxError => String::from_str(
                "Error: syntax error, please check the command line arguments.",
            ),
        };
        s.append("\nUsage: deefinder <path> [options]\nTry 'deefinder --help' for more information.");
        s
    }
}

impl SystemError {
    /// The text shown for this error.
    pub open spec fn message(self) -> Seq<char> {
        match self {
            SystemError::InvalidFolder(p) => "Error: invalid folder specified '"@ + p@
                + "'.\nThis folder may not exist."@ + usage_hint(),
            SystemError::InvalidPath(p) => "Error: invalid path '"@ + p@ + "'"@,
            SystemError::InvalidFilename(file) => "Error: invalid filename '"@ + file@ + "'"@,
            SystemError::UnableToCreateFile(p, e) => "Error: unable to create file '"@ + p@
                + "': "@ + e@,
            SystemError::UnableToSerialize(format, e) => "Error: unable to serialize data to '"@
                + format@ + "' format: "@ + e@,
            SystemError::ParentFolderDoesntExist(p) => "Error: parent folder doesn't exist '"@
                + p@ + "'"@,
            SystemError::UnableToReadDir(p) => "Error: unable to read directory '"@ + p@ + "'"@,
            SystemError::UnableToGetCurrentDir(e) => "Error: unable to get current directory.\n"@
                + e@,
            SystemError::UnsupportedHashAlgorithm(h) => "Error: unsupported hash algorithm '"@
                + h@ + "'"@,
            SystemError::ThreadError => "Error: thread error"@,
        }
    }

    /// Renders the error as the text shown to the user.
    pub fn to_string(&self) -> (s: String)
        ensures
            s@ == self.message(),
    {
        match self {
            SystemError::InvalidFolder(p) => {
                let mut s: String = String::from_str("Error: invalid folder specified '");
                s.append(p.as_str());
                s.append("'.\nThis folder may not exist.");
                s.append(
                    "\nUsage: deefinder <path> [options]\nTry 'deefinder --help' for more information.",
                );
                s
            },
            SystemError::InvalidPath(p) => quoted("Error: invalid path '", p.as_str()),
            SystemError::InvalidFilename(file) => quoted(
                "Error: invalid filename '",
                file.as_str(),
            ),
            SystemError::UnableToCreateFile(p, e) => {
                let mut s: String = String::from_str("Error: unable to create file '");
                s.append(p.as_str());
                s.append("': ");
                s.append(e.as_str());
                s
            },
            SystemError::UnableToSerialize(format, e) => {
                let mut s: String = String::from_str("Error: unable to serialize data to '");
                s.append(format.as_str());
                s.append("' format: ");
                s.append(e.as_str());
                s
            },
            SystemError::ParentFolderDoesntExist(p) => quoted(
                "Error: parent folder doesn't exist '",
                p.as_str(),
            ),
            SystemError::UnableToReadDir(p) => quoted(
                "Error: unable to read directory '",
                p.as_str(),
            ),
            SystemError::UnableToGetCurrentDir(e) => {
                let mut s: String = String::from_str(
                    "Error: unable to get current directory.\n",
                );
                s.append(e.as_str());
                s
            },
            SystemError::UnsupportedHashAlgorithm(h) => quoted(
                "Error: unsupported hash algorithm '",
                h.as_str(),
            ),
            SystemError::ThreadError => String::from_str("Error: thread error"),
        }
    }
}

impl DeepFinderError {
    /// The text shown for this error: that of the error it wraps.
    pub open spec fn message(self) -> Seq<char> {
        match self {
            DeepFinderError::ArgError(e) => e.message(),
            DeepFinderError::SystemError(e) => e.message(),
        }
    }

    /// Renders the error as the text shown to the user.
    pub fn to_string(&self) -> (s: String)
        ensures
            s@ == self.message(),
    {
        match self {
            DeepFinderError::ArgError(e) => e.to_string(),
            DeepFinderError::SystemError(e) => e.to_string(),
        }
    }
}

/// `lead`, then `subject`, then a closing quote.
fn quoted(lead: &str, subject: &str) -> (s: String)
    ensures
        s@ == lead@ + subject@ + "'"@,
{
    let mut s: String = String::from_str(lead);
    s.append(subject);
    s.append("'");
    s
}

} // verus!
