//! What the user asked for, and how the command line's choices become the
//! configuration of a search.

use crate::error::{ArgError, DeepFinderError, Failure, SystemFailure};
use crate::paths::{parent_folder, parent_of};
use crate::system::{
    build_full_path, checked_file_path, checked_folder_path, full_path_of, is_valid_file_path,
    is_valid_folder_path, CurrentDir,
};
use crate::text::{chars_of, views};
use vstd::prelude::*;
use vstd::string::{StrSliceExecFns, StringExecFns};

verus! {

/// Where and how the findings are written.
#[derive(Debug, Clone, PartialEq, Eq)]
pub enum CliOutput {
    Standard,
    CsvStdin,
    CsvFile(String),
    JsonStdin,
    JsonFile(String),
    XmlStdin,
    XmlFile(String),
}

/// What a `CliOutput` stands for.
pub enum OutputView {
    Standard,
    CsvStdin,
    CsvFile(Seq<char>),
    JsonStdin,
    JsonFile(Seq<char>),
    XmlStdin,
    XmlFile(Seq<char>),
}

impl View for CliOutput {
    type V = OutputView;

    open spec fn view(&self) -> OutputView {
        match self {
            CliOutput::Standard => OutputView::Standard,
            CliOutput::CsvStdin => OutputView::CsvStdin,
            CliOutput::CsvFile(p) => OutputView::CsvFile(p@),
            CliOutput::JsonStdin => OutputView::JsonStdin,
            CliOutput::JsonFile(p) => OutputView::JsonFile(p@),
            CliOutput::XmlStdin => OutputView::XmlStdin,
            CliOutput::XmlFile(p) => OutputView::XmlFile(p@),
        }
    }
}

/// The configuration of one search.
#[derive(Debug, Clone, PartialEq, Eq)]
pub struct FindingConfig {
    /// The directory to search: a full path, without separators at its end.
    pub search_path: String,
    /// Whether files are duplicates when they share a name.
    pub enable_search_by_name: bool,
    /// Whether entries are scanned whose name starts with a dot.
    pub include_hidden_files: bool,
    /// The hash algorithms to compute, in order, if any.
    pub hash: Option<Vec<String>>,
    pub output: CliOutput,
}

/// What a `FindingConfig` stands for.
pub struct ConfigView {
    pub search_path: Seq<char>,
    pub enable_search_by_name: bool,
    pub include_hidden_files: bool,
    pub hash: Option<Seq<Seq<char>>>,
    pub output: OutputView,
}

impl View for FindingConfig {
    type V = ConfigView;

    open spec fn view(&self) -> ConfigView {
        ConfigView {
            search_path: self.search_path@,
            enable_search_by_name: self.enable_search_by_name,
            include_hidden_files: self.include_hidden_files,
            hash: match self.hash {
                Some(names) => Some(views(names@)),
                None => None,
            },
            output: self.output@,
        }
    }
}

/// The choices read from the command line, before any of them is checked.
#[derive(Debug, Clone, PartialEq, Eq)]
pub struct UserChoices {
    /// The directory to search.
    pub path: Option<String>,
    /// Search by name.
    pub name: bool,
    /// The hash algorithms asked for.
    pub hash_algorithm: Option<Vec<String>>,
    /// Scan hidden entries too.
    pub hidden_files: bool,
    pub csv_display: bool,
    pub csv_output: Option<String>,
    pub json_display: bool,
    pub json_output: Option<String>,
    pub xml_display: bool,
    pub xml_output: Option<String>,
}

/// `text` without the separators, `/` or `\`, at its end.
pub open spec fn without_trailing_separators(text: Seq<char>) -> Seq<char>
    decreases text.len(),
{
    if text.len() > 0 && (text.last() == '/' || text.last() == '\\') {
        without_trailing_separators(text.drop_last())
    } else {
        text
    }
}

/// The output that a file path asks for, once the path is checked.
pub open spec fn file_output(
    path: Seq<char>,
    current_dir: CurrentDir,
    existing: Seq<Seq<char>>,
    make: spec_fn(Seq<char>) -> OutputView,
) -> Result<OutputView, Failure> {
    match checked_file_path(path, current_dir, existing) {
        Ok(full) => Ok(make(full)),
        Err(e) => Err(Failure::SystemError(e)),
    }
}

/// The output that the choices ask for. Of several, the first in this order
/// counts: CSV shown, CSV file, JSON shown, JSON file, XML shown, XML file.
pub open spec fn chosen_output(
    choices: UserChoices,
    current_dir: CurrentDir,
    existing: Seq<Seq<char>>,
) -> Result<OutputView, Failure> {
    if choices.csv_display {
        Ok(OutputView::CsvStdin)
    } else if choices.csv_output is Some {
        file_output(
            choices.csv_output->0@,
            current_dir,
            existing,
            |p: Seq<char>| OutputView::CsvFile(p),
        )
    } else if choices.json_display {
        Ok(OutputView::JsonStdin)
    } else if choices.json_output is Some {
        file_output(
            choices.json_output->0@,
            current_dir,
            existing,
            |p: Seq<char>| OutputView::JsonFile(p),
        )
    } else if choices.xml_display {
        Ok(OutputView::XmlStdin)
    } else if choices.xml_output is Some {
        file_output(
            choices.xml_output->0@,
            current_dir,
            existing,
            |p: Seq<char>| OutputView::XmlFile(p),
        )
    } else {
        Ok(OutputView::Standard)
    }
}

/// The configuration that the choices stand for, or why they cannot be used.
///
/// The search path is checked first, then the output. Searching is by name
/// where the user asked for it or named no hash algorithm.
pub open spec fn parsed(choices: UserChoices, current_dir: CurrentDir, existing: Seq<Seq<char>>) -> Result<
    ConfigView,
    Failure,
> {
    match choices.path {
        None => Err(Failure::ArgError(ArgError::NoPathSpecified)),
        Some(path) => match checked_folder_path(path@, current_dir, existing) {
            Err(e) => Err(Failure::SystemError(e)),
            Ok(full) => match chosen_output(choices, current_dir, existing) {
                Err(e) => Err(e),
                Ok(output) => Ok(
                    ConfigView {
                        search_path: without_trailing_separators(full),
                        enable_search_by_name: choices.name || choices.hash_algorithm is None,
                        include_hidden_files: choices.hidden_files,
                        hash: match choices.hash_algorithm {
                            Some(names) => Some(views(names@)),
                            None => None,
                        },
                        output,
                    },
                ),
            },
        },
    }
}

/// The path whose existence decides whether `path` is a folder to search:
/// its full path, where that is known.
pub open spec fn folder_probe(path: Option<String>, current_dir: CurrentDir) -> Seq<Seq<char>> {
    match path {
        Some(p) => match full_path_of(p@, current_dir) {
            Ok(full) => seq![full],
            Err(_) => Seq::empty(),
        },
        None => Seq::empty(),
    }
}

/// The path whose existence decides whether `path` is a file to write: the
/// parent of its full path, where there is one.
pub open spec fn file_probe(path: Option<String>, current_dir: CurrentDir) -> Seq<Seq<char>> {
    match path {
        Some(p) => match full_path_of(p@, current_dir) {
            Ok(full) => match parent_of(full) {
                Some(parent) => seq![parent],
                None => Seq::empty(),
            },
            Err(_) => Seq::empty(),
        },
        None => Seq::empty(),
    }
}

/// The paths whose existence decides what the choices stand for.
pub open spec fn probes(choices: UserChoices, current_dir: CurrentDir) -> Seq<Seq<char>> {
    folder_probe(choices.path, current_dir) + file_probe(choices.csv_output, current_dir) + file_probe(
        choices.json_output,
        current_dir,
    ) + file_probe(choices.xml_output, current_dir)
}

/// What the choices stand for depends on the file system through the paths
/// of `probes` alone: two states of it that agree on them give the same.
pub proof fn lemma_probes_decide(
    choices: UserChoices,
    current_dir: CurrentDir,
    one: Seq<Seq<char>>,
    other: Seq<Seq<char>>,
)
    requires
        forall|p: Seq<char>|
            probes(choices, current_dir).contains(p) ==> (one.contains(p) <==> other.contains(p)),
    ensures
        parsed(choices, current_dir, one) == parsed(choices, current_dir, other),
{
    let all = probes(choices, current_dir);
    let folder = folder_probe(choices.path, current_dir);
    let csv = file_probe(choices.csv_output, current_dir);
    let json = file_probe(choices.json_output, current_dir);
    let xml = file_probe(choices.xml_output, current_dir);
    assert forall|p: Seq<char>|
        folder.contains(p) || csv.contains(p) || json.contains(p) || xml.contains(p) implies all.contains(
        p,
    ) by {
        if folder.contains(p) {
            assert(all[0] == p);
        } else if csv.contains(p) {
            assert(all[folder.len() as int] == p);
        } else if json.contains(p) {
            assert(all[(folder.len() + csv.len()) as int] == p);
        } else {
            assert(all[(folder.len() + csv.len() + json.len()) as int] == p);
        }
    }
    if folder.len() > 0 {
        assert(folder.contains(folder[0]));
    }
    if csv.len() > 0 {
        assert(csv.contains(csv[0]));
    }
    if json.len() > 0 {
        assert(json.contains(json[0]));
    }
    if xml.len() > 0 {
        assert(xml.contains(xml[0]));
    }
}

/// A result with the views of what it holds.
pub open spec fn outcome_view(r: Result<FindingConfig, DeepFinderError>) -> Result<ConfigView, Failure> {
    match r {
        Ok(config) => Ok(config@),
        Err(e) => Err(e@),
    }
}

/// `text` without the separators at its end.
fn trim_trailing_separators(text: &str) -> (out: String)
    ensures
        out@ == without_trailing_separators(text@),
{
    let chars: Vec<char> = chars_of(text);
    let mut end: usize = chars.len();
    assert(text@.take(end as int) =~= text@);
    while end > 0 && (chars[end - 1] == '/' || chars[end - 1] == '\\')
        invariant
            end <= chars@.len(),
            chars@ == text@,
            without_trailing_separators(text@) == without_trailing_separators(text@.take(end as int)),
        decreases end,
    {
        proof {
            assert(text@.take(end as int).drop_last() =~= text@.take(end as int - 1));
        }
        end -= 1;
    }
    assert(text@.take(end as int) =~= text@.subrange(0, end as int));
    String::from_str(text.substring_char(0, end))
}

/// A copy of a list of texts.
fn copy_texts(texts: &Vec<String>) -> (out: Vec<String>)
    ensures
        views(out@) == views(texts@),
{
    let mut out: Vec<String> = Vec::new();
    let mut i: usize = 0;
    while i < texts.len()
        invariant
            i <= texts@.len(),
            out@.len() == i,
            forall|k: int| 0 <= k < i ==> out@[k]@ == texts@[k]@,
        decreases texts.len() - i,
    {
        out.push(texts[i].clone());
        i += 1;
    }
    assert(views(out@) =~= views(texts@));
    out
}

/// Adds to `out` the parent of the full path of an output file, if any.
fn add_file_probe(out: &mut Vec<String>, path: &Option<String>, current_dir: &CurrentDir)
    ensures
        views(final(out)@) == views(old(out)@) + file_probe(*path, *current_dir),
{
    let ghost before = views(out@);
    if let Some(p) = path {
        if let Ok(full) = build_full_path(p.as_str(), current_dir) {
            if let Some(parent) = parent_folder(full.as_str()) {
                out.push(parent);
                assert(views(out@) =~= before + seq![parent@]);
                return;
            }
        }
    }
    assert(views(out@) =~= before + Seq::empty());
}

/// The paths whose existence decides what the choices stand for: the full
/// search path, and the parent folder of each output file.
pub fn paths_to_probe(choices: &UserChoices, current_dir: &CurrentDir) -> (out: Vec<String>)
    ensures
        views(out@) == probes(*choices, *current_dir),
{
    let mut out: Vec<String> = Vec::new();
    if let Some(p) = &choices.path {
        if let Ok(full) = build_full_path(p.as_str(), current_dir) {
            out.push(full);
        }
    }
    assert(views(out@) =~= folder_probe(choices.path, *current_dir));
    add_file_probe(&mut out, &choices.csv_output, current_dir);
    add_file_probe(&mut out, &choices.json_output, current_dir);
    add_file_probe(&mut out, &choices.xml_output, current_dir);
    out
}

/// Checks the path given for an output file, and gives its full path.
pub fn check_output_arg(path: &str, current_dir: &CurrentDir, existing: &[String]) -> (out: Result<
    String,
    DeepFinderError,
>)
    ensures
        match checked_file_path(path@, *current_dir, views(existing@)) {
            Ok(full) => out matches Ok(s) && s@ == full,
            Err(e) => out matches Err(DeepFinderError::SystemError(f)) && f@ == e,
        },
{
    match is_valid_file_path(path, current_dir, existing) {
        Ok(full_path) => Ok(full_path),
        Err(e) => Err(DeepFinderError::SystemError(e)),
    }
}

/// Turns the choices of the command line into the configuration of a search.
///
/// `current_dir` and `existing` say what is known of the file system: the
/// directory in which the program runs, and the paths that exist. The search
/// path must be given (`NoPathSpecified`) and be a folder that exists; the
/// path of an output file must be usable (see `is_valid_file_path`).
pub fn parse_user_choices(
    choices: &UserChoices,
    current_dir: &CurrentDir,
    existing: &[String],
) -> (out: Result<FindingConfig, DeepFinderError>)
    ensures
        outcome_view(out) == parsed(*choices, *current_dir, views(existing@)),
{
    let path: &String = match &choices.path {
        Some(path) => path,
        None => {
            return Err(DeepFinderError::ArgError(ArgError::NoPathSpecified));
        },
    };
    let full: String = match is_valid_folder_path(path.as_str(), current_dir, existing) {
        Ok(full) => full,
        Err(e) => {
            return Err(DeepFinderError::SystemError(e));
        },
    };
    let search_path: String = trim_trailing_separators(full.as_str());
    let hash: Option<Vec<String>> = match &choices.hash_algorithm {
        Some(names) => Some(copy_texts(names)),
        None => None,
    };
    let output: CliOutput = if choices.csv_display {
        CliOutput::CsvStdin
    } else if let Some(path) = &choices.csv_output {
        match check_output_arg(path.as_str(), current_dir, existing) {
            Ok(full) => CliOutput::CsvFile(full),
            Err(e) => {
                return Err(e);
            },
        }
    } else if choices.json_display {
        CliOutput::JsonStdin
    } else if let Some(path) = &choices.json_output {
        match check_output_arg(path.as_str(), current_dir, existing) {
            Ok(full) => CliOutput::JsonFile(full),
            Err(e) => {
                return Err(e);
            },
        }
    } else if choices.xml_display {
        CliOutput::XmlStdin
    } else if let Some(path) = &choices.xml_output {
        match check_output_arg(path.as_str(), current_dir, existing) {
            Ok(full) => CliOutput::XmlFile(full),
            Err(e) => {
                return Err(e);
            },
        }
    } else {
        CliOutput::Standard
    };
    Ok(
        FindingConfig {
            search_path,
            enable_search_by_name: choices.name || choices.hash_algorithm.is_none(),
            include_hidden_files: choices.hidden_files,
            hash,
            output,
        },
    )
}

} // verus!
