//! The files as the library sees them: the catalogue with one record per
//! file, the checks on the paths that the user names, and the digest of a
//! file's content.
//!
//! Nothing here touches the file system. What is known of it is handed in:
//! the current directory, the paths that exist, the sizes and the contents of
//! the files.

use crate::checksums::{insert_pair, Checksums};
use crate::error::{SystemError, SystemFailure};
use crate::hashing::{algorithm_named, digest_length, digest_text, HashAlgorithm};
use crate::paths::{
    base_name, file_name, is_absolute, parent_folder, parent_of, starts_at_root, strip_leading_dots,
    without_leading_dots,
};
use crate::text::{chars_of, views};
use vstd::prelude::*;
use vstd::string::StringExecFns;

verus! {

/// What a `VirtualFile` stands for: one file found by a scan.
pub struct FileRecord {
    pub name: Seq<char>,
    pub size: u64,
    pub full_path: Seq<char>,
    pub checksums: Option<Seq<(Seq<char>, Seq<char>)>>,
}

/// `record` with the digest of algorithm `k` set to `v`.
pub open spec fn attach(record: FileRecord, k: Seq<char>, v: Seq<char>) -> FileRecord {
    FileRecord {
        checksums: Some(
            insert_pair(
                match record.checksums {
                    Some(pairs) => pairs,
                    None => Seq::empty(),
                },
                k,
                v,
            ),
        ),
        ..record
    }
}

/// One file of the catalogue: its base name, its size in bytes, its full path
/// and the digests computed for it so far.
#[derive(Debug, Clone, PartialEq, Eq)]
pub struct VirtualFile {
    pub name: String,
    pub size: u64,
    pub full_path: String,
    pub checksums: Option<Checksums>,
}

impl View for VirtualFile {
    type V = FileRecord;

    open spec fn view(&self) -> FileRecord {
        FileRecord {
            name: self.name@,
            size: self.size,
            full_path: self.full_path@,
            checksums: match self.checksums {
                Some(c) => Some(c@),
                None => None,
            },
        }
    }
}

impl VirtualFile {
    /// Records `digest` for `algorithm`, in place of an earlier digest for it.
    pub fn update_checksum(&mut self, algorithm: &str, digest: String)
        ensures
            final(self)@ == attach(old(self)@, algorithm@, digest@),
    {
        let mut held: Option<Checksums> = None;
        core::mem::swap(&mut self.checksums, &mut held);
        let mut checksums: Checksums = match held {
            Some(c) => c,
            None => Checksums::new(),
        };
        checksums.insert(algorithm, digest);
        self.checksums = Some(checksums);
    }

    /// A copy of this record.
    pub fn duplicate(&self) -> (out: VirtualFile)
        ensures
            out@ == self@,
    {
        VirtualFile {
            name: self.name.clone(),
            size: self.size,
            full_path: self.full_path.clone(),
            checksums: match &self.checksums {
                Some(c) => Some(c.duplicate()),
                None => None,
            },
        }
    }
}

/// What is known of the directory in which the program runs.
#[derive(Debug, Clone, PartialEq, Eq)]
pub enum CurrentDir {
    /// Its path.
    Known(String),
    /// It has a path that is no valid text.
    NotUnicode,
    /// It could not be found out; the reason is kept as text.
    Unavailable(String),
}

/// The characters that no file name may hold.
pub open spec fn invalid_chars() -> Seq<char> {
    seq!['/', '\0', '\r', '\n']
}

/// Whether `name` holds a character that no file name may hold.
pub open spec fn has_invalid_char(name: Seq<char>) -> bool {
    exists|i: int| 0 <= i < name.len() && invalid_chars().contains(#[trigger] name[i])
}

/// The full path of `path`: itself where it is absolute; else the current
/// directory, a separator, and `path` without the `./` at its start.
pub open spec fn full_path_of(path: Seq<char>, current_dir: CurrentDir) -> Result<Seq<char>, SystemFailure> {
    if is_absolute(path) {
        Ok(path)
    } else {
        match current_dir {
            CurrentDir::Known(dir) => Ok(dir@ + seq!['/'] + without_leading_dots(path)),
            CurrentDir::NotUnicode => Err(SystemFailure::InvalidPath(path)),
            CurrentDir::Unavailable(reason) => Err(SystemFailure::UnableToGetCurrentDir(reason@)),
        }
    }
}

/// Whether the parent of `file_path` is among the paths known to exist.
pub open spec fn parent_exists(file_path: Seq<char>, existing: Seq<Seq<char>>) -> bool {
    match parent_of(file_path) {
        Some(parent) => existing.contains(parent),
        None => false,
    }
}

/// What checking the path of a file to write gives: its full path, or why it
/// cannot be used.
pub open spec fn checked_file_path(
    path: Seq<char>,
    current_dir: CurrentDir,
    existing: Seq<Seq<char>>,
) -> Result<Seq<char>, SystemFailure> {
    match base_name(path) {
        None => Err(SystemFailure::InvalidPath(path)),
        Some(name) => if has_invalid_char(name) {
            Err(SystemFailure::InvalidFilename(name))
        } else {
            match full_path_of(path, current_dir) {
                Err(e) => Err(e),
                Ok(full) => if parent_exists(full, existing) {
                    Ok(full)
                } else {
                    Err(SystemFailure::ParentFolderDoesntExist(path))
                },
            }
        },
    }
}

/// What checking the path of a folder gives: its full path, or why it cannot
/// be used.
pub open spec fn checked_folder_path(
    path: Seq<char>,
    current_dir: CurrentDir,
    existing: Seq<Seq<char>>,
) -> Result<Seq<char>, SystemFailure> {
    match full_path_of(path, current_dir) {
        Err(e) => Err(e),
        Ok(full) => if existing.contains(full) {
            Ok(full)
        } else {
            Err(SystemFailure::InvalidFolder(full))
        },
    }
}

/// A result with the views of what it holds.
pub open spec fn result_view(r: Result<String, SystemError>) -> Result<Seq<char>, SystemFailure> {
    match r {
        Ok(s) => Ok(s@),
        Err(e) => Err(e@),
    }
}

/// The characters that no file name may hold.
pub fn get_invalid_chars() -> (chars: Vec<char>)
    ensures
        chars@ == invalid_chars(),
{
    let mut chars: Vec<char> = Vec::new();
    chars.push('/');
    chars.push('\0');
    chars.push('\r');
    chars.push('\n');
    assert(chars@ =~= invalid_chars());
    chars
}

/// Whether `name` holds a character that no file name may hold.
fn holds_invalid_char(name: &str) -> (found: bool)
    ensures
        found == has_invalid_char(name@),
{
    let invalid: Vec<char> = get_invalid_chars();
    let chars: Vec<char> = chars_of(name);
    let mut i: usize = 0;
    while i < chars.len()
        invariant
            i <= chars@.len(),
            chars@ == name@,
            invalid@ == invalid_chars(),
            forall|k: int| 0 <= k < i ==> !invalid_chars().contains(#[trigger] name@[k]),
        decreases chars.len() - i,
    {
        let mut j: usize = 0;
        while j < invalid.len()
            invariant
                j <= invalid@.len(),
                i < chars@.len(),
                chars@ == name@,
                invalid@ == invalid_chars(),
                forall|k: int| 0 <= k < j ==> invalid@[k] != chars@[i as int],
            decreases invalid.len() - j,
        {
            if invalid[j] == chars[i] {
                assert(invalid_chars()[j as int] == name@[i as int]);
                return true;
            }
            j += 1;
        }
        i += 1;
    }
    false
}

/// Whether `path` is among the paths known to exist.
fn is_known(existing: &[String], path: &String) -> (found: bool)
    ensures
        found == views(existing@).contains(path@),
{
    let mut i: usize = 0;
    while i < existing.len()
        invariant
            i <= existing@.len(),
            forall|k: int| 0 <= k < i ==> views(existing@)[k] != path@,
        decreases existing.len() - i,
    {
        if existing[i] == *path {
            assert(views(existing@)[i as int] == path@);
            return true;
        }
        i += 1;
    }
    false
}

/// The full path of `path`, given what is known of the current directory.
///
/// An absolute path is its own full path. A relative one is put behind the
/// current directory; where that has no usable path the result is
/// `InvalidPath`, and where it is not known, `UnableToGetCurrentDir`.
pub fn build_full_path(path: &str, current_dir: &CurrentDir) -> (out: Result<String, SystemError>)
    ensures
        result_view(out) == full_path_of(path@, *current_dir),
{
    if starts_at_root(path) {
        Ok(String::from_str(path))
    } else {
        match current_dir {
            CurrentDir::Known(dir) => {
                let mut full: String = dir.clone();
                proof {
                    reveal_strlit("/");
                }
                full.append("/");
                let rest: String = strip_leading_dots(path);
                full.append(rest.as_str());
                assert(full@ =~= dir@ + seq!['/'] + without_leading_dots(path@));
                Ok(full)
            },
            CurrentDir::NotUnicode => Err(SystemError::InvalidPath(String::from_str(path))),
            CurrentDir::Unavailable(reason) => Err(SystemError::UnableToGetCurrentDir(reason.clone())),
        }
    }
}

/// Whether the parent folder of `file_path` exists, `existing` being the
/// paths known to exist. A path without a parent gives `false`.
pub fn check_if_parent_folder_exists(file_path: &str, existing: &[String]) -> (found: bool)
    ensures
        found == parent_exists(file_path@, views(existing@)),
{
    match parent_folder(file_path) {
        Some(parent) => is_known(existing, &parent),
        None => false,
    }
}

/// Checks the path of a file that is to be written, and gives its full path.
///
/// The path must have a base name (`InvalidPath`) without a character that
/// no file name may hold (`InvalidFilename`), its full path must be known
/// (see `build_full_path`), and the parent folder of the full path must exist
/// (`ParentFolderDoesntExist`). The checks are made in this order.
pub fn is_valid_file_path(path: &str, current_dir: &CurrentDir, existing: &[String]) -> (out: Result<
    String,
    SystemError,
>)
    ensures
        result_view(out) == checked_file_path(path@, *current_dir, views(existing@)),
{
    let filename: String = match file_name(path) {
        Some(f) => f,
        None => {
            return Err(SystemError::InvalidPath(String::from_str(path)));
        },
    };
    if holds_invalid_char(filename.as_str()) {
        return Err(SystemError::InvalidFilename(filename));
    }
    let full_path: String = match build_full_path(path, current_dir) {
        Ok(full) => full,
        Err(e) => {
            return Err(e);
        },
    };
    if !check_if_parent_folder_exists(full_path.as_str(), existing) {
        return Err(SystemError::ParentFolderDoesntExist(String::from_str(path)));
    }
    Ok(full_path)
}

/// Checks the path of a folder, and gives its full path.
///
/// The full path must be known (see `build_full_path`) and must exist
/// (`InvalidFolder`, with the full path).
pub fn is_valid_folder_path(path: &str, current_dir: &CurrentDir, existing: &[String]) -> (out: Result<
    String,
    SystemError,
>)
    ensures
        result_view(out) == checked_folder_path(path@, *current_dir, views(existing@)),
{
    let full_path: String = match build_full_path(path, current_dir) {
        Ok(full) => full,
        Err(e) => {
            return Err(e);
        },
    };
    if !is_known(existing, &full_path) {
        return Err(SystemError::InvalidFolder(full_path));
    }
    Ok(full_path)
}

/// The size recorded for the `i`-th path: what was looked up, and `0` where
/// the lookup failed or was not made.
pub open spec fn size_at(sizes: Seq<Option<u64>>, i: int) -> u64 {
    if 0 <= i < sizes.len() {
        match sizes[i] {
            Some(size) => size,
            None => 0,
        }
    } else {
        0
    }
}

/// The records of the first `n` paths: one for each path that has a base
/// name, in the order of the paths, without digests.
pub open spec fn catalogue(paths: Seq<Seq<char>>, sizes: Seq<Option<u64>>, n: nat) -> Seq<FileRecord>
    decreases n,
{
    if n == 0 || n > paths.len() {
        Seq::empty()
    } else {
        let rest = catalogue(paths, sizes, (n - 1) as nat);
        match base_name(paths[n - 1]) {
            Some(name) => rest.push(
                FileRecord {
                    name,
                    size: size_at(sizes, n - 1),
                    full_path: paths[n - 1],
                    checksums: None,
                },
            ),
            None => rest,
        }
    }
}

/// No two records have the same path.
pub open spec fn has_distinct_paths(records: Seq<FileRecord>) -> bool {
    forall|i: int, j: int|
        0 <= i < j < records.len() ==> (#[trigger] records[i]).full_path != (#[trigger] records[j]).full_path
}

/// The catalogue of paths of which none occurs twice holds no path twice:
/// each of its records has the path of its own file.
pub proof fn lemma_catalogue_has_distinct_paths(paths: Seq<Seq<char>>, sizes: Seq<Option<u64>>, n: nat)
    requires
        paths.no_duplicates(),
        n <= paths.len(),
    ensures
        has_distinct_paths(catalogue(paths, sizes, n)),
        forall|j: int|
            0 <= j < catalogue(paths, sizes, n).len() ==> exists|k: int|
                0 <= k < n && paths[k] == (#[trigger] catalogue(paths, sizes, n)[j]).full_path,
    decreases n,
{
    if n > 0 {
        lemma_catalogue_has_distinct_paths(paths, sizes, (n - 1) as nat);
        let rest = catalogue(paths, sizes, (n - 1) as nat);
        let all = catalogue(paths, sizes, n);
        assert forall|j: int| 0 <= j < all.len() implies exists|k: int|
            0 <= k < n && paths[k] == (#[trigger] all[j]).full_path by {
            if j < rest.len() {
                assert(all[j] == rest[j]);
                let k = choose|k: int| 0 <= k < n - 1 && paths[k] == rest[j].full_path;
                assert(paths[k] == all[j].full_path);
            } else {
                assert(paths[n - 1] == all[j].full_path);
            }
        }
        assert forall|i: int, j: int| 0 <= i < j < all.len() implies (#[trigger] all[i]).full_path != (
        #[trigger] all[j]).full_path by {
            if j < rest.len() {
                assert(all[i] == rest[i] && all[j] == rest[j]);
            } else {
                assert(all[i] == rest[i]);
                let k = choose|k: int| 0 <= k < n - 1 && paths[k] == rest[i].full_path;
                assert(paths[k] != paths[n - 1]);
            }
        }
    }
}

/// Builds the catalogue: one record for each path that has a base name, in
/// the order of the paths. `sizes` gives, position by position, the size that
/// was looked up for the path, or `None` where the lookup failed: the record
/// then has the size `0`. A path without a base name is passed over.
pub fn build_virtual_files(file_paths: Vec<String>, sizes: &[Option<u64>]) -> (files: Vec<VirtualFile>)
    ensures
        views(files@) == catalogue(views(file_paths@), sizes@, file_paths@.len()),
        files@.len() <= file_paths@.len(),
{
    let mut virtual_files: Vec<VirtualFile> = Vec::new();
    let mut i: usize = 0;
    assert(views(virtual_files@) =~= Seq::empty());
    while i < file_paths.len()
        invariant
            i <= file_paths@.len(),
            virtual_files@.len() <= i,
            views(virtual_files@) == catalogue(views(file_paths@), sizes@, i as nat),
        decreases file_paths.len() - i,
    {
        let ghost before = views(virtual_files@);
        let path: &String = &file_paths[i];
        match file_name(path.as_str()) {
            Some(name) => {
                let size: u64 = if i < sizes.len() {
                    match sizes[i] {
                        Some(size) => size,
                        None => 0,
                    }
                } else {
                    0
                };
                let file = VirtualFile { name, size, full_path: path.clone(), checksums: None };
                virtual_files.push(file);
                assert(views(virtual_files@) =~= before.push(file@));
            },
            None => {},
        }
        i += 1;
    }
    virtual_files
}

/// The digest of a file's content under the algorithm called `hash`, as
/// lowercase hexadecimal text: two digits for each byte of the digest.
///
/// Fails with `UnsupportedHashAlgorithm` where `hash` is none of the
/// identifiers that the library knows.
pub fn manage_hash(content: &[u8], hash: &str) -> (out: Result<String, SystemError>)
    ensures
        match algorithm_named(hash@) {
            Some(algorithm) => out matches Ok(digest) && digest@ == digest_text(algorithm, content@)
                && digest@.len() == 2 * digest_length(algorithm),
            None => out matches Err(SystemError::UnsupportedHashAlgorithm(name)) && name@ == hash@,
        },
{
    match HashAlgorithm::from_name(hash) {
        Some(algorithm) => Ok(algorithm.hex_digest(content)),
        None => Err(SystemError::UnsupportedHashAlgorithm(String::from_str(hash))),
    }
}

} // verus!
