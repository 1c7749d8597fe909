//! What is handed to the export: the findings as plain text, as CSV, or as
//! records for another format, together with where they go.

use crate::checksums::{render_pair, Checksums};
use crate::cli::{CliOutput, FindingConfig, OutputView};
use crate::error::{DeepFinderError, SystemError};
use crate::search_engine::{DuplicateFile, DuplicateGroup};
use crate::text::{decimal, decimal_text, views};
use vstd::prelude::*;
use vstd::string::StringExecFns;

verus! {

/// One export, ready to be carried out: what to write, and where. Without a
/// path the findings go to the standard output.
#[derive(Debug, Clone, PartialEq, Eq)]
pub enum ExportJob {
    /// The findings as plain text, for the standard output.
    Plain { content: String },
    /// A CSV document.
    Csv { path: Option<String>, content: String },
    /// Records to write as JSON.
    Json { path: Option<String>, records: Vec<DuplicateFile> },
    /// Records to write as XML.
    Xml { path: Option<String>, records: Vec<DuplicateFile> },
}

/// What an `ExportJob` stands for.
pub enum ExportView {
    Plain { content: Seq<char> },
    Csv { path: Option<Seq<char>>, content: Seq<char> },
    Json { path: Option<Seq<char>>, records: Seq<DuplicateGroup> },
    Xml { path: Option<Seq<char>>, records: Seq<DuplicateGroup> },
}

/// The view of a path that may be absent.
pub open spec fn path_view(path: Option<String>) -> Option<Seq<char>> {
    match path {
        Some(p) => Some(p@),
        None => None,
    }
}

impl View for ExportJob {
    type V = ExportView;

    open spec fn view(&self) -> ExportView {
        match self {
            ExportJob::Plain { content } => ExportView::Plain { content: content@ },
            ExportJob::Csv { path, content } => ExportView::Csv {
                path: path_view(*path),
                content: content@,
            },
            ExportJob::Json { path, records } => ExportView::Json {
                path: path_view(*path),
                records: views(records@),
            },
            ExportJob::Xml { path, records } => ExportView::Xml {
                path: path_view(*path),
                records: views(records@),
            },
        }
    }
}

/// The first `n` of `parts`, one after the other, with `sep` between two.
pub open spec fn joined(parts: Seq<Seq<char>>, sep: Seq<char>, n: nat) -> Seq<char>
    decreases n,
{
    if n == 0 || n > parts.len() {
        Seq::empty()
    } else if n == 1 {
        parts[0]
    } else {
        joined(parts, sep, (n - 1) as nat) + sep + parts[n - 1]
    }
}

/// The digests of a group as texts, one `algorithm:digest` for each.
pub open spec fn digest_lines(pairs: Seq<(Seq<char>, Seq<char>)>) -> Seq<Seq<char>> {
    Seq::new(pairs.len(), |i: int| render_pair(pairs[i]))
}

/// The lines of plain text for the first `n` paths of a group.
pub open spec fn path_lines(paths: Seq<Seq<char>>, n: nat) -> Seq<char>
    decreases n,
{
    if n == 0 || n > paths.len() {
        Seq::empty()
    } else {
        path_lines(paths, (n - 1) as nat) + " - "@ + paths[n - 1] + "\n"@
    }
}

/// The lines of plain text for the first `n` digests of a group.
pub open spec fn checksum_lines(pairs: Seq<(Seq<char>, Seq<char>)>, n: nat) -> Seq<char>
    decreases n,
{
    if n == 0 || n > pairs.len() {
        Seq::empty()
    } else {
        checksum_lines(pairs, (n - 1) as nat) + "Checksum ("@ + pairs[n - 1].0 + ") : "@ + pairs[n
            - 1].1 + "\n"@
    }
}

/// The plain text for one group: its name, its paths, their number, its
/// digests where they are asked for, and an empty line.
pub open spec fn group_text(group: DuplicateGroup, include_hashes: bool) -> Seq<char> {
    "Duplicate file found: "@ + group.name + "\n"@ + path_lines(group.paths, group.paths.len())
        + "Occurrences: "@ + decimal_text(group.paths.len()) + "\n"@ + (match group.checksums {
        Some(pairs) => if include_hashes {
            checksum_lines(pairs, pairs.len())
        } else {
            Seq::empty()
        },
        None => Seq::empty(),
    }) + "\n"@
}

/// The plain text for the first `n` groups.
pub open spec fn groups_text(groups: Seq<DuplicateGroup>, include_hashes: bool, n: nat) -> Seq<char>
    decreases n,
{
    if n == 0 || n > groups.len() {
        Seq::empty()
    } else {
        groups_text(groups, include_hashes, (n - 1) as nat) + group_text(groups[n - 1], include_hashes)
    }
}

/// The findings as plain text.
pub open spec fn simple_text(groups: Seq<DuplicateGroup>, include_hashes: bool) -> Seq<char> {
    if groups.len() == 0 {
        "No duplicate files found.\n"@
    } else {
        decimal_text(groups.len()) + " duplicate files found:\n"@ + groups_text(
            groups,
            include_hashes,
            groups.len(),
        )
    }
}

/// The titles of the columns of the CSV table.
pub open spec fn csv_header(include_hashes: bool) -> Seq<Seq<char>> {
    if include_hashes {
        seq!["Name"@, "Paths"@, "Occurrences"@, "Size"@, "Checksums"@]
    } else {
        seq!["Name"@, "Paths"@, "Occurrences"@, "Size"@]
    }
}

/// The row of the CSV table for one group: its name, its paths one to a
/// line, their number, its size and, where digests are asked for, its
/// digests one to a line, or `N/A` where it has none.
pub open spec fn csv_row(group: DuplicateGroup, include_hashes: bool) -> Seq<Seq<char>> {
    let fields = seq![
        group.name,
        joined(group.paths, "\n"@, group.paths.len()),
        decimal_text(group.paths.len()),
        decimal_text(group.size as nat),
    ];
    if include_hashes {
        fields.push(
            match group.checksums {
                Some(pairs) => joined(digest_lines(pairs), "\n"@, pairs.len()),
                None => "N/A"@,
            },
        )
    } else {
        fields
    }
}

/// The CSV table: the titles, then one row for each group.
pub open spec fn csv_table(groups: Seq<DuplicateGroup>, include_hashes: bool) -> Seq<Seq<Seq<char>>> {
    Seq::new(
        groups.len() + 1,
        |i: int|
            if i == 0 {
                csv_header(include_hashes)
            } else {
                csv_row(groups[i - 1], include_hashes)
            },
    )
}

/// A CSV document in the making: a `csv::Writer` that writes into memory,
/// with `;` between the fields. Trusted: Verus sees nothing of what is inside;
/// the contracts speak of the records handed to it so far.
#[verifier::external_body]
pub struct CsvDocument {
    writer: csv::Writer<Vec<u8>>,
}

/// The records handed to `write_record` so far, in order, each as its
/// fields. They are the records that the document holds as long as no call
/// has failed.
pub uninterp spec fn csv_written(document: CsvDocument) -> Seq<Seq<Seq<char>>>;

/// Whether the document stands between two records: no field of a record
/// that is not yet ended is pending.
pub uninterp spec fn csv_open(document: CsvDocument) -> bool;

/// The text of the document that holds `records`, as the `csv` crate writes
/// it with `;` between the fields.
pub uninterp spec fn csv_text_of(records: Seq<Seq<Seq<char>>>) -> Seq<char>;

/// Builds a writer into memory with `csv::WriterBuilder`, the delimiter set
/// to `;`. Trusted: nothing is written yet, and no record is begun.
#[verifier::external_body]
fn csv_start() -> (document: CsvDocument)
    ensures
        csv_written(document) == Seq::<Seq<Seq<char>>>::empty(),
        csv_open(document),
{
    CsvDocument { writer: csv::WriterBuilder::new().delimiter(b';').from_writer(Vec::new()) }
}

/// Calls `csv::Writer::write_record`. Trusted: where the call succeeds, the
/// record stands behind those written before and is ended. The call succeeds
/// on a document that stands between two records where the record is the
/// first or has as many fields as the first: writing into memory does not
/// fail, and the writer refuses a record for its number of fields alone.
/// What the document holds after a failure is left open.
#[verifier::external_body]
fn csv_write_record(document: &mut CsvDocument, record: &Vec<String>) -> (out: Result<(), String>)
    ensures
        out is Ok ==> csv_written(*final(document)) == csv_written(*old(document)).push(
            views(record@),
        ) && csv_open(*final(document)),
        csv_open(*old(document)) && (csv_written(*old(document)).len() == 0 || record@.len()
            == csv_written(*old(document))[0].len()) ==> out is Ok,
{
    document.writer.write_record(record).map_err(|e| e.to_string())
}

/// Calls `csv::Writer::into_inner` and reads the bytes as text. Trusted: the
/// text depends on the records written alone. The call succeeds on a
/// document that stands between two records: flushing into memory does not
/// fail, and what was written is text because the fields are.
#[verifier::external_body]
fn csv_finish(document: CsvDocument) -> (out: Result<String, String>)
    ensures
        out matches Ok(text) ==> text@ == csv_text_of(csv_written(document)),
        csv_open(document) ==> out is Ok,
{
    let bytes = document.writer.into_inner().map_err(|e| e.to_string())?;
    String::from_utf8(bytes).map_err(|e| e.to_string())
}

/// The views of the rows of a table.
pub open spec fn table_view(rows: Seq<Vec<String>>) -> Seq<Seq<Seq<char>>> {
    Seq::new(rows.len(), |i: int| views(rows[i]@))
}

/// The records handed to an export in another format: the groups, without
/// their digests unless these are asked for.
pub open spec fn export_records(groups: Seq<DuplicateGroup>, include_hashes: bool) -> Seq<DuplicateGroup> {
    Seq::new(
        groups.len(),
        |i: int|
            DuplicateGroup {
                checksums: if include_hashes {
                    groups[i].checksums
                } else {
                    None
                },
                ..groups[i]
            },
    )
}

/// `parts`, one after the other, with `sep` between two.
fn join_texts(parts: &Vec<String>, sep: &str) -> (out: String)
    ensures
        out@ == joined(views(parts@), sep@, parts@.len()),
{
    let mut out: String = String::new();
    let mut i: usize = 0;
    while i < parts.len()
        invariant
            i <= parts@.len(),
            out@ == joined(views(parts@), sep@, i as nat),
        decreases parts.len() - i,
    {
        if i > 0 {
            out.append(sep);
        }
        out.append(parts[i].as_str());
        i += 1;
        assert(out@ =~= joined(views(parts@), sep@, i as nat));
    }
    out
}

/// The digests as texts, one `algorithm:digest` for each.
fn digest_texts(checksums: &Checksums) -> (out: Vec<String>)
    ensures
        views(out@) == digest_lines(checksums@),
{
    let mut out: Vec<String> = Vec::new();
    let mut i: usize = 0;
    while i < checksums.len()
        invariant
            i <= checksums@.len(),
            out@.len() == i,
            forall|k: int| 0 <= k < i ==> out@[k]@ == render_pair(checksums@[k]),
        decreases checksums@.len() - i,
    {
        let mut line: String = checksums.algorithm_at(i).clone();
        proof {
            reveal_strlit(":");
        }
        line.append(":");
        line.append(checksums.digest_at(i).as_str());
        assert(line@ =~= render_pair(checksums@[i as int]));
        out.push(line);
        i += 1;
    }
    assert(views(out@) =~= digest_lines(checksums@));
    out
}

/// The findings as plain text: a title, then for each group its name, its
/// paths, their number and, where `include_hashes` is set, its digests.
pub fn simple_display(duplicates: &[DuplicateFile], include_hashes: bool) -> (out: String)
    ensures
        out@ == simple_text(views(duplicates@), include_hashes),
{
    if duplicates.len() == 0 {
        return String::from_str("No duplicate files found.\n");
    }
    let ghost groups = views(duplicates@);
    let mut out: String = decimal(duplicates.len() as u64);
    out.append(" duplicate files found:\n");
    let ghost title = out@;
    let mut i: usize = 0;
    assert(out@ =~= title + groups_text(groups, include_hashes, 0));
    while i < duplicates.len()
        invariant
            i <= duplicates@.len(),
            groups == views(duplicates@),
            out@ == title + groups_text(groups, include_hashes, i as nat),
        decreases duplicates.len() - i,
    {
        let duplicate: &DuplicateFile = &duplicates[i];
        let ghost group = duplicate@;
        let ghost before = out@;
        out.append("Duplicate file found: ");
        out.append(duplicate.name.as_str());
        out.append("\n");
        let ghost head = out@;
        let mut j: usize = 0;
        assert(out@ =~= head + path_lines(group.paths, 0));
        while j < duplicate.paths.len()
            invariant
                j <= duplicate.paths@.len(),
                group == duplicate@,
                out@ == head + path_lines(group.paths, j as nat),
            decreases duplicate.paths.len() - j,
        {
            out.append(" - ");
            out.append(duplicate.paths[j].as_str());
            out.append("\n");
            j += 1;
            assert(out@ =~= head + path_lines(group.paths, j as nat));
        }
        out.append("Occurrences: ");
        let count: String = decimal(duplicate.paths.len() as u64);
        out.append(count.as_str());
        out.append("\n");
        let ghost middle = out@;
        let ghost shown: Seq<char> = match group.checksums {
            Some(pairs) => if include_hashes {
                checksum_lines(pairs, pairs.len())
            } else {
                Seq::empty()
            },
            None => Seq::empty(),
        };
        if include_hashes {
            if let Some(checksums) = &duplicate.checksums {
                let mut k: usize = 0;
                assert(out@ =~= middle + checksum_lines(checksums@, 0));
                while k < checksums.len()
                    invariant
                        k <= checksums@.len(),
                        out@ == middle + checksum_lines(checksums@, k as nat),
                    decreases checksums@.len() - k,
                {
                    out.append("Checksum (");
                    out.append(checksums.algorithm_at(k).as_str());
                    out.append(") : ");
                    out.append(checksums.digest_at(k).as_str());
                    out.append("\n");
                    k += 1;
                    assert(out@ =~= middle + checksum_lines(checksums@, k as nat));
                }
            }
        }
        assert(out@ =~= middle + shown);
        out.append("\n");
        i += 1;
        assert(out@ =~= before + group_text(group, include_hashes));
        assert(out@ =~= title + groups_text(groups, include_hashes, i as nat));
    }
    out
}

/// The CSV table of the findings: the titles, then one row for each group.
pub fn csv_rows(duplicates: &[DuplicateFile], include_hashes: bool) -> (rows: Vec<Vec<String>>)
    ensures
        table_view(rows@) == csv_table(views(duplicates@), include_hashes),
{
    let mut header: Vec<String> = Vec::new();
    header.push(String::from_str("Name"));
    header.push(String::from_str("Paths"));
    header.push(String::from_str("Occurrences"));
    header.push(String::from_str("Size"));
    if include_hashes {
        header.push(String::from_str("Checksums"));
    }
    assert(views(header@) =~= csv_header(include_hashes));
    let mut rows: Vec<Vec<String>> = Vec::new();
    rows.push(header);
    let mut i: usize = 0;
    while i < duplicates.len()
        invariant
            i <= duplicates@.len(),
            rows@.len() == i + 1,
            views(rows@[0]@) == csv_header(include_hashes),
            forall|k: int|
                1 <= k <= i ==> views((#[trigger] rows@[k])@) == csv_row(
                    duplicates@[k - 1]@,
                    include_hashes,
                ),
        decreases duplicates.len() - i,
    {
        let file: &DuplicateFile = &duplicates[i];
        let mut row: Vec<String> = Vec::new();
        row.push(file.name.clone());
        row.push(join_texts(&file.paths, "\n"));
        row.push(decimal(file.paths.len() as u64));
        row.push(decimal(file.size));
        if include_hashes {
            let text: String = match &file.checksums {
                Some(checksums) => {
                    let lines: Vec<String> = digest_texts(checksums);
                    join_texts(&lines, "\n")
                },
                None => String::from_str("N/A"),
            };
            row.push(text);
        }
        assert(views(row@) =~= csv_row(file@, include_hashes));
        let ghost held = rows@;
        rows.push(row);
        assert(forall|k: int| 0 <= k < held.len() ==> rows@[k] == held[k]);
        i += 1;
    }
    assert(table_view(rows@) =~= csv_table(views(duplicates@), include_hashes));
    rows
}

/// A failure to write CSV, with the reason that the `csv` crate gave.
fn csv_failure(reason: String) -> (e: DeepFinderError)
    ensures
        e matches DeepFinderError::SystemError(SystemError::UnableToSerialize(format, text))
            && format@ == "csv"@ && text@ == reason@,
{
    DeepFinderError::SystemError(SystemError::UnableToSerialize(String::from_str("csv"), reason))
}

/// The findings as a CSV document with `;` between the fields: the titles,
/// then one record for each group (see `csv_table`).
///
/// Every record of the table has as many fields as the titles, so the `csv`
/// crate refuses none, and the result is always the document.
pub fn csv_display(duplicates: &[DuplicateFile], include_hashes: bool) -> (out: Result<
    String,
    DeepFinderError,
>)
    ensures
        out matches Ok(text) && text@ == csv_text_of(csv_table(views(duplicates@), include_hashes)),
{
    let rows: Vec<Vec<String>> = csv_rows(duplicates, include_hashes);
    let ghost table = csv_table(views(duplicates@), include_hashes);
    let mut document: CsvDocument = csv_start();
    let mut i: usize = 0;
    assert(table.take(0) =~= Seq::empty());
    assert forall|k: int| 0 <= k < table.len() implies (#[trigger] table[k]).len()
        == table[0].len() by {}
    while i < rows.len()
        invariant
            i <= rows@.len(),
            table_view(rows@) == table,
            forall|k: int| 0 <= k < table.len() ==> (#[trigger] table[k]).len() == table[0].len(),
            csv_written(document) == table.take(i as int),
            csv_open(document),
        decreases rows.len() - i,
    {
        assert(table[i as int] == views(rows@[i as int]@));
        proof {
            if i > 0 {
                assert(table.take(i as int)[0] == table[0]);
            }
        }
        match csv_write_record(&mut document, &rows[i]) {
            Ok(()) => {},
            Err(reason) => {
                return Err(csv_failure(reason));
            },
        }
        i += 1;
        assert(table.take(i as int) =~= table.take(i as int - 1).push(table[i as int - 1]));
    }
    assert(table.take(i as int) =~= table);
    match csv_finish(document) {
        Ok(text) => Ok(text),
        Err(reason) => Err(csv_failure(reason)),
    }
}

/// Copies of the groups for an export in another format, without their
/// digests unless `include_hashes` is set.
pub fn records_for_export(duplicates: &[DuplicateFile], include_hashes: bool) -> (records: Vec<
    DuplicateFile,
>)
    ensures
        views(records@) == export_records(views(duplicates@), include_hashes),
{
    let mut records: Vec<DuplicateFile> = Vec::new();
    let mut i: usize = 0;
    while i < duplicates.len()
        invariant
            i <= duplicates@.len(),
            records@.len() == i,
            forall|k: int|
                0 <= k < i ==> (#[trigger] records@[k])@ == export_records(
                    views(duplicates@),
                    include_hashes,
                )[k],
        decreases duplicates.len() - i,
    {
        let file: &DuplicateFile = &duplicates[i];
        let mut paths: Vec<String> = Vec::new();
        let mut j: usize = 0;
        while j < file.paths.len()
            invariant
                j <= file.paths@.len(),
                paths@.len() == j,
                forall|k: int| 0 <= k < j ==> paths@[k]@ == file.paths@[k]@,
            decreases file.paths.len() - j,
        {
            paths.push(file.paths[j].clone());
            j += 1;
        }
        assert(views(paths@) =~= views(file.paths@));
        let record = DuplicateFile {
            paths,
            name: file.name.clone(),
            checksums: if include_hashes {
                match &file.checksums {
                    Some(c) => Some(c.duplicate()),
                    None => None,
                }
            } else {
                None
            },
            size: file.size,
        };
        records.push(record);
        i += 1;
    }
    assert(views(records@) =~= export_records(views(duplicates@), include_hashes));
    records
}

/// What the export of the findings has to write, and where, for the output
/// that the configuration names.
///
/// The standard output and the CSV outputs get a finished text; the JSON and
/// XML outputs get the records to serialise. Every output gets its job.
pub fn export_findings_scheduler(
    duplicates: &[DuplicateFile],
    config: &FindingConfig,
    include_hashes: bool,
) -> (out: Result<ExportJob, DeepFinderError>)
    ensures
        match config.output@ {
            OutputView::Standard => out matches Ok(job) && job@ == (ExportView::Plain {
                content: simple_text(views(duplicates@), include_hashes),
            }),
            OutputView::CsvStdin => out matches Ok(job) && job@ == (ExportView::Csv {
                path: None,
                content: csv_text_of(csv_table(views(duplicates@), include_hashes)),
            }),
            OutputView::CsvFile(p) => out matches Ok(job) && job@ == (ExportView::Csv {
                path: Some(p),
                content: csv_text_of(csv_table(views(duplicates@), include_hashes)),
            }),
            OutputView::JsonStdin => out matches Ok(job) && job@ == (ExportView::Json {
                path: None,
                records: export_records(views(duplicates@), include_hashes),
            }),
            OutputView::JsonFile(p) => out matches Ok(job) && job@ == (ExportView::Json {
                path: Some(p),
                records: export_records(views(duplicates@), include_hashes),
            }),
            OutputView::XmlStdin => out matches Ok(job) && job@ == (ExportView::Xml {
                path: None,
                records: export_records(views(duplicates@), include_hashes),
            }),
            OutputView::XmlFile(p) => out matches Ok(job) && job@ == (ExportView::Xml {
                path: Some(p),
                records: export_records(views(duplicates@), include_hashes),
            }),
        },
{
    match &config.output {
        CliOutput::Standard => Ok(
            ExportJob::Plain { content: simple_display(duplicates, include_hashes) },
        ),
        CliOutput::CsvStdin => match csv_display(duplicates, include_hashes) {
            Ok(content) => Ok(ExportJob::Csv { path: None, content }),
            Err(e) => Err(e),
        },
        CliOutput::CsvFile(path) => match csv_display(duplicates, include_hashes) {
            Ok(content) => Ok(ExportJob::Csv { path: Some(path.clone()), content }),
            Err(e) => Err(e),
        },
        CliOutput::JsonStdin => Ok(
            ExportJob::Json { path: None, records: records_for_export(duplicates, include_hashes) },
        ),
        CliOutput::JsonFile(path) => Ok(
            ExportJob::Json {
                path: Some(path.clone()),
                records: records_for_export(duplicates, include_hashes),
            },
        ),
        CliOutput::XmlStdin => Ok(
            ExportJob::Xml { path: None, records: records_for_export(duplicates, include_hashes) },
        ),
        CliOutput::XmlFile(path) => Ok(
            ExportJob::Xml {
                path: Some(path.clone()),
                records: records_for_export(duplicates, include_hashes),
            },
        ),
    }
}

} // verus!
