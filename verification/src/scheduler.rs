//! The hashing scheduler: one pass over the catalogue for each algorithm, the
//! records handed out in chunks, hashed on copies, and merged back by path.
//!
//! `hash_handler` runs the passes on contents held in memory, chunk after
//! chunk. A caller that hashes the chunks of a pass on threads of its own uses
//! `split_chunks` and `merge_results`, and hashes each file either from its
//! content (`hash_file`) or piece by piece as it reads it (`start_hashing`,
//! `record_digest`); what comes out is the same, as
//! `lemma_hashed_chunks_make_the_pass` states.

use crate::checksums::{
    all_plain, lemma_insert_again, lemma_insert_keeps_order, lemma_insert_keeps_plain,
    lemma_lookup_after_insert, lookup, strictly_sorted,
};
use crate::error::{DeepFinderError, SystemError};
use crate::hashing::{
    algorithm_named, digest_of, digest_text, lemma_algorithm_name_is_plain, lemma_hex_is_plain,
    HashAlgorithm, HashStream,
};
use crate::partition::{chunk_end, chunk_ranges, chunk_start, workers};
use crate::system::{attach, has_distinct_paths, manage_hash, FileRecord, VirtualFile};
use crate::text::views;
use crate::text_map::{lacks_key, TextMap};
use vstd::prelude::*;

verus! {

/// Calls `num_cpus::get`: the number of logical processing units that the
/// machine offers to this process. Nothing is assumed of the number.
#[verifier::external_body]
fn available_cores() -> (cores: usize) {
    num_cpus::get()
}

/// The contents of the files as sequences of bytes; `None` stands for a file
/// that could not be read.
pub open spec fn contents_view(contents: Seq<Option<Vec<u8>>>) -> Seq<Option<Seq<u8>>> {
    Seq::new(
        contents.len(),
        |i: int|
            match contents[i] {
                Some(bytes) => Some(bytes@),
                None => None,
            },
    )
}

/// The content of the `i`-th file, where it was read. A file for which no
/// content is given counts as one that could not be read.
pub open spec fn content_at(contents: Seq<Option<Seq<u8>>>, i: int) -> Option<Seq<u8>> {
    if 0 <= i < contents.len() {
        contents[i]
    } else {
        None
    }
}

/// A record after a worker has hashed it: with a digest for `algorithm` where
/// the algorithm is known and the file's content was read, unchanged where not.
pub open spec fn hashed(record: FileRecord, algorithm: Seq<char>, content: Option<Seq<u8>>) -> FileRecord {
    match (algorithm_named(algorithm), content) {
        (Some(a), Some(data)) => attach(record, algorithm, digest_text(a, data)),
        _ => record,
    }
}

/// Every record after the workers of one pass have hashed it.
pub open spec fn hashed_all(
    records: Seq<FileRecord>,
    algorithm: Seq<char>,
    contents: Seq<Option<Seq<u8>>>,
) -> Seq<FileRecord> {
    Seq::new(records.len(), |i: int| hashed(records[i], algorithm, content_at(contents, i)))
}

/// The position of the first record at or after `i` whose path is `path`, or
/// the length where there is none.
pub open spec fn find_path(records: Seq<FileRecord>, path: Seq<char>, i: int) -> int
    decreases records.len() - i,
{
    if i < 0 || i >= records.len() {
        records.len() as int
    } else if records[i].full_path == path {
        i
    } else {
        find_path(records, path, i + 1)
    }
}

/// `records` after one result has been merged into it: the first record of
/// the same path takes over the result's digest for `algorithm`, if it has
/// one; a result whose path no record has is added at the end.
pub open spec fn merge_one(records: Seq<FileRecord>, result: FileRecord, algorithm: Seq<char>) -> Seq<
    FileRecord,
> {
    let i = find_path(records, result.full_path, 0);
    if 0 <= i < records.len() {
        match result.checksums {
            Some(pairs) => match lookup(pairs, algorithm) {
                Some(digest) => records.update(i, attach(records[i], algorithm, digest)),
                None => records,
            },
            None => records,
        }
    } else {
        records.push(result)
    }
}

/// `records` after the results have been merged into it, one after the other.
pub open spec fn merge_all(records: Seq<FileRecord>, results: Seq<FileRecord>, algorithm: Seq<char>) -> Seq<
    FileRecord,
>
    decreases results.len(),
{
    if results.len() == 0 {
        records
    } else {
        merge_one(merge_all(records, results.drop_last(), algorithm), results.last(), algorithm)
    }
}

/// The catalogue after the pass for one algorithm: every record is hashed on a
/// copy, and the copies are merged back.
pub open spec fn pass(records: Seq<FileRecord>, algorithm: Seq<char>, contents: Seq<Option<Seq<u8>>>) -> Seq<
    FileRecord,
> {
    merge_all(records, hashed_all(records, algorithm, contents), algorithm)
}

/// The catalogue after one pass for each of `algorithms`, in their order.
pub open spec fn passes(
    records: Seq<FileRecord>,
    algorithms: Seq<Seq<char>>,
    contents: Seq<Option<Seq<u8>>>,
) -> Seq<FileRecord>
    decreases algorithms.len(),
{
    if algorithms.len() == 0 {
        records
    } else {
        pass(passes(records, algorithms.drop_last(), contents), algorithms.last(), contents)
    }
}

/// The position of the first identifier at or after `i` that names no known
/// algorithm, or the length where all do.
pub open spec fn first_unsupported(algorithms: Seq<Seq<char>>, i: int) -> int
    decreases algorithms.len() - i,
{
    if i < 0 || i >= algorithms.len() {
        algorithms.len() as int
    } else if algorithm_named(algorithms[i]) is None {
        i
    } else {
        first_unsupported(algorithms, i + 1)
    }
}

/// Merging results in two lots gives what merging them in one lot gives.
pub proof fn lemma_merge_in_lots(
    records: Seq<FileRecord>,
    first: Seq<FileRecord>,
    second: Seq<FileRecord>,
    algorithm: Seq<char>,
)
    ensures
        merge_all(merge_all(records, first, algorithm), second, algorithm) == merge_all(
            records,
            first + second,
            algorithm,
        ),
    decreases second.len(),
{
    if second.len() == 0 {
        assert(first + second =~= first);
    } else {
        lemma_merge_in_lots(records, first, second.drop_last(), algorithm);
        assert((first + second).drop_last() =~= first + second.drop_last());
        assert((first + second).last() == second.last());
    }
}

/// The digests of every record are in ascending order of algorithm, as the
/// digests of every `VirtualFile` are.
pub open spec fn has_sorted_digests(records: Seq<FileRecord>) -> bool {
    forall|i: int|
        0 <= i < records.len() ==> match (#[trigger] records[i]).checksums {
            Some(pairs) => strictly_sorted(pairs),
            None => true,
        }
}

/// The records of which the first `t` are hashed and the others are not yet.
pub open spec fn partly_hashed(
    records: Seq<FileRecord>,
    algorithm: Seq<char>,
    contents: Seq<Option<Seq<u8>>>,
    t: int,
) -> Seq<FileRecord> {
    Seq::new(
        records.len(),
        |i: int|
            if i < t {
                hashed(records[i], algorithm, content_at(contents, i))
            } else {
                records[i]
            },
    )
}

proof fn lemma_find_path_is(records: Seq<FileRecord>, path: Seq<char>, i: int, q: int)
    requires
        0 <= i <= q <= records.len(),
        forall|j: int| i <= j < q ==> (#[trigger] records[j]).full_path != path,
        q < records.len() ==> records[q].full_path == path,
    ensures
        find_path(records, path, i) == q,
    decreases q - i,
{
    if i < q {
        assert(records[i].full_path != path);
        lemma_find_path_is(records, path, i + 1, q);
    }
}

/// Merging its own hashed copy into a record gives the hashed copy.
proof fn lemma_merge_own_copy(record: FileRecord, algorithm: Seq<char>, content: Option<Seq<u8>>)
    requires
        match record.checksums {
            Some(pairs) => strictly_sorted(pairs),
            None => true,
        },
    ensures
        ({
            let copy = hashed(record, algorithm, content);
            match copy.checksums {
                Some(pairs) => match lookup(pairs, algorithm) {
                    Some(digest) => attach(record, algorithm, digest) == copy,
                    None => copy == record,
                },
                None => copy == record,
            }
        }),
{
    let copy = hashed(record, algorithm, content);
    let base = match record.checksums {
        Some(pairs) => pairs,
        None => Seq::empty(),
    };
    match (algorithm_named(algorithm), content) {
        (Some(a), Some(data)) => {
            lemma_lookup_after_insert(base, algorithm, digest_text(a, data));
        },
        _ => {
            match record.checksums {
                Some(pairs) => {
                    if lookup(pairs, algorithm) is Some {
                        lemma_insert_again(pairs, algorithm);
                    }
                },
                None => {},
            }
        },
    }
}

proof fn lemma_merge_hashed_prefix(
    records: Seq<FileRecord>,
    algorithm: Seq<char>,
    contents: Seq<Option<Seq<u8>>>,
    t: int,
)
    requires
        has_distinct_paths(records),
        has_sorted_digests(records),
        0 <= t <= records.len(),
    ensures
        merge_all(records, hashed_all(records, algorithm, contents).take(t), algorithm) == partly_hashed(
            records,
            algorithm,
            contents,
            t,
        ),
    decreases t,
{
    let all = hashed_all(records, algorithm, contents);
    if t == 0 {
        assert(partly_hashed(records, algorithm, contents, 0) =~= records);
    } else {
        lemma_merge_hashed_prefix(records, algorithm, contents, t - 1);
        let before = partly_hashed(records, algorithm, contents, t - 1);
        let result = all[t - 1];
        assert(all.take(t).drop_last() =~= all.take(t - 1));
        assert(all.take(t).last() == result);
        assert(result.full_path == records[t - 1].full_path);
        assert forall|j: int| 0 <= j < t - 1 implies (#[trigger] before[j]).full_path
            != result.full_path by {
            assert(before[j].full_path == records[j].full_path);
            assert(records[j].full_path != records[t - 1].full_path);
        }
        assert(before[t - 1] == records[t - 1]);
        lemma_find_path_is(before, result.full_path, 0, t - 1);
        lemma_merge_own_copy(records[t - 1], algorithm, content_at(contents, t - 1));
        assert(merge_one(before, result, algorithm) =~= partly_hashed(records, algorithm, contents, t));
    }
}

/// Where no two records have the same path, a pass gives every record the
/// digest of its own file, and nothing else changes: hashing copies in
/// chunks and merging them back by path is hashing each record in place.
pub proof fn lemma_pass_hashes_each_record(
    records: Seq<FileRecord>,
    algorithm: Seq<char>,
    contents: Seq<Option<Seq<u8>>>,
)
    requires
        has_distinct_paths(records),
        has_sorted_digests(records),
    ensures
        pass(records, algorithm, contents) == hashed_all(records, algorithm, contents),
{
    let all = hashed_all(records, algorithm, contents);
    lemma_merge_hashed_prefix(records, algorithm, contents, records.len() as int);
    assert(all.take(records.len() as int) =~= all);
    assert(partly_hashed(records, algorithm, contents, records.len() as int) =~= all);
}

/// A record after it has been hashed under each of `algorithms` in turn.
pub open spec fn hashed_in_turn(
    record: FileRecord,
    algorithms: Seq<Seq<char>>,
    content: Option<Seq<u8>>,
) -> FileRecord
    decreases algorithms.len(),
{
    if algorithms.len() == 0 {
        record
    } else {
        hashed(hashed_in_turn(record, algorithms.drop_last(), content), algorithms.last(), content)
    }
}

/// Every record after it has been hashed under each of `algorithms` in turn.
pub open spec fn hashed_by_all(
    records: Seq<FileRecord>,
    algorithms: Seq<Seq<char>>,
    contents: Seq<Option<Seq<u8>>>,
) -> Seq<FileRecord> {
    Seq::new(records.len(), |i: int| hashed_in_turn(records[i], algorithms, content_at(contents, i)))
}

/// Hashing a record leaves its path and keeps its digests in order.
proof fn lemma_hashed_keeps_shape(record: FileRecord, algorithm: Seq<char>, content: Option<Seq<u8>>)
    requires
        match record.checksums {
            Some(pairs) => strictly_sorted(pairs),
            None => true,
        },
    ensures
        hashed(record, algorithm, content).full_path == record.full_path,
        hashed(record, algorithm, content).name == record.name,
        hashed(record, algorithm, content).size == record.size,
        match hashed(record, algorithm, content).checksums {
            Some(pairs) => strictly_sorted(pairs),
            None => true,
        },
{
    match (algorithm_named(algorithm), content) {
        (Some(a), Some(data)) => {
            let base = match record.checksums {
                Some(pairs) => pairs,
                None => Seq::empty(),
            };
            lemma_insert_keeps_order(base, algorithm, digest_text(a, data));
        },
        _ => {},
    }
}

/// The digests of every record are made of plain texts: the grouping key of
/// such digests can be read back in one way only.
pub open spec fn has_plain_digests(records: Seq<FileRecord>) -> bool {
    forall|i: int|
        0 <= i < records.len() ==> match (#[trigger] records[i]).checksums {
            Some(pairs) => all_plain(pairs),
            None => true,
        }
}

/// Hashing keeps the digests plain: the identifiers of the algorithms and
/// the digests that the library computes are plain texts.
pub proof fn lemma_hashing_keeps_plain(
    records: Seq<FileRecord>,
    algorithms: Seq<Seq<char>>,
    contents: Seq<Option<Seq<u8>>>,
)
    requires
        has_plain_digests(records),
    ensures
        has_plain_digests(hashed_by_all(records, algorithms, contents)),
{
    let all = hashed_by_all(records, algorithms, contents);
    assert forall|i: int| 0 <= i < all.len() implies match (#[trigger] all[i]).checksums {
        Some(pairs) => all_plain(pairs),
        None => true,
    } by {
        lemma_hashed_in_turn_is_plain(records[i], algorithms, content_at(contents, i));
    }
}

proof fn lemma_hashed_in_turn_is_plain(
    record: FileRecord,
    algorithms: Seq<Seq<char>>,
    content: Option<Seq<u8>>,
)
    requires
        match record.checksums {
            Some(pairs) => all_plain(pairs),
            None => true,
        },
    ensures
        match hashed_in_turn(record, algorithms, content).checksums {
            Some(pairs) => all_plain(pairs),
            None => true,
        },
    decreases algorithms.len(),
{
    if algorithms.len() > 0 {
        lemma_hashed_in_turn_is_plain(record, algorithms.drop_last(), content);
        let before = hashed_in_turn(record, algorithms.drop_last(), content);
        let algorithm = algorithms.last();
        match (algorithm_named(algorithm), content) {
            (Some(a), Some(data)) => {
                let base = match before.checksums {
                    Some(pairs) => pairs,
                    None => Seq::empty(),
                };
                lemma_algorithm_name_is_plain(algorithm);
                lemma_hex_is_plain(digest_of(a, data));
                lemma_insert_keeps_plain(base, algorithm, digest_text(a, data));
            },
            _ => {},
        }
    }
}

/// Where no two records have the same path, the passes for several
/// algorithms give every record the digests of its own file under each
/// known algorithm, where the file was read; names, sizes and paths stay.
pub proof fn lemma_passes_hash_each_record(
    records: Seq<FileRecord>,
    algorithms: Seq<Seq<char>>,
    contents: Seq<Option<Seq<u8>>>,
)
    requires
        has_distinct_paths(records),
        has_sorted_digests(records),
    ensures
        passes(records, algorithms, contents) == hashed_by_all(records, algorithms, contents),
        has_distinct_paths(passes(records, algorithms, contents)),
        has_sorted_digests(passes(records, algorithms, contents)),
        forall|i: int|
            0 <= i < records.len() ==> (#[trigger] passes(records, algorithms, contents)[i]).full_path
                == records[i].full_path,
    decreases algorithms.len(),
{
    if algorithms.len() == 0 {
        assert(hashed_by_all(records, algorithms, contents) =~= records);
    } else {
        let earlier = algorithms.drop_last();
        lemma_passes_hash_each_record(records, earlier, contents);
        let before = passes(records, earlier, contents);
        lemma_pass_hashes_each_record(before, algorithms.last(), contents);
        let after = passes(records, algorithms, contents);
        assert(after == hashed_all(before, algorithms.last(), contents));
        assert forall|i: int| 0 <= i < after.len() implies (#[trigger] after[i]).full_path
            == records[i].full_path && match after[i].checksums {
            Some(pairs) => strictly_sorted(pairs),
            None => true,
        } by {
            lemma_hashed_keeps_shape(before[i], algorithms.last(), content_at(contents, i));
        }
        assert(after =~= hashed_by_all(records, algorithms, contents));
    }
}

/// Copies of the records at the positions `start..end`.
pub fn take_chunk(records: &[VirtualFile], start: usize, end: usize) -> (chunk: Vec<VirtualFile>)
    requires
        start <= end <= records@.len(),
    ensures
        views(chunk@) == views(records@).subrange(start as int, end as int),
{
    let mut chunk: Vec<VirtualFile> = Vec::new();
    let mut i: usize = start;
    while i < end
        invariant
            start <= i <= end <= records@.len(),
            views(chunk@) == views(records@).subrange(start as int, i as int),
        decreases end - i,
    {
        let ghost before = views(chunk@);
        let copy: VirtualFile = records[i].duplicate();
        chunk.push(copy);
        i += 1;
        assert(views(chunk@) =~= before.push(copy@));
        assert(views(chunk@) =~= views(records@).subrange(start as int, i as int));
    }
    chunk
}

/// Hashes one file: where `algorithm` is known, records the digest of
/// `content` under it; where it is not, leaves the record as it is.
pub fn hash_file(file: &mut VirtualFile, algorithm: &str, content: &[u8])
    ensures
        final(file)@ == hashed(old(file)@, algorithm@, Some(content@)),
{
    match manage_hash(content, algorithm) {
        Ok(digest) => {
            file.update_checksum(algorithm, digest);
        },
        Err(_) => {},
    }
}

/// Starts the hashing of a file's content under the algorithm called
/// `algorithm`; there is nothing to start where the library does not know the
/// algorithm.
pub fn start_hashing(algorithm: &str) -> (out: Option<HashStream>)
    ensures
        match algorithm_named(algorithm@) {
            Some(a) => out matches Some(stream) && stream.algorithm() == a && stream.content()
                == Seq::<u8>::empty(),
            None => out is None,
        },
{
    match HashAlgorithm::from_name(algorithm) {
        Some(a) => Some(HashStream::new(a)),
        None => None,
    }
}

/// Records for `algorithm` the digest of the content that `stream` has
/// taken. Where the stream was started for `algorithm` and has taken the
/// whole content of the file, the record is the record hashed, as by
/// `hash_file`.
pub fn record_digest(file: &mut VirtualFile, algorithm: &str, stream: HashStream)
    ensures
        final(file)@ == attach(
            old(file)@,
            algorithm@,
            digest_text(stream.algorithm(), stream.content()),
        ),
        algorithm_named(algorithm@) == Some(stream.algorithm()) ==> final(file)@ == hashed(
            old(file)@,
            algorithm@,
            Some(stream.content()),
        ),
{
    let digest: String = stream.finish_hex();
    file.update_checksum(algorithm, digest);
}

/// The table holds the paths of the records, each with the position of the
/// first record that has it.
spec fn is_table_of_paths(table: TextMap, records: Seq<FileRecord>) -> bool {
    &&& forall|t: int|
        0 <= t < table@.len() ==> {
            let (path, first) = #[trigger] table@[t];
            first < records.len() && find_path(records, path, 0) == first
        }
    &&& forall|i: int|
        0 <= i < records.len() ==> !lacks_key(table@, (#[trigger] records[i]).full_path)
}

proof fn lemma_find_path(records: Seq<FileRecord>, path: Seq<char>, i: int)
    requires
        0 <= i <= records.len(),
    ensures
        i <= find_path(records, path, i) <= records.len(),
        find_path(records, path, i) < records.len() ==> records[find_path(records, path, i)].full_path
            == path,
        forall|j: int| i <= j < find_path(records, path, i) ==> (#[trigger] records[j]).full_path != path,
    decreases records.len() - i,
{
    if i < records.len() && records[i].full_path != path {
        lemma_find_path(records, path, i + 1);
    }
}

/// Where the paths of the records stay, the first record of each path stays.
proof fn lemma_find_path_follows_paths(
    before: Seq<FileRecord>,
    after: Seq<FileRecord>,
    path: Seq<char>,
    i: int,
)
    requires
        0 <= i <= before.len() <= after.len(),
        forall|j: int| 0 <= j < before.len() ==> (#[trigger] after[j]).full_path == before[j].full_path,
        find_path(before, path, i) < before.len(),
    ensures
        find_path(after, path, i) == find_path(before, path, i),
    decreases before.len() - i,
{
    assert(after[i].full_path == before[i].full_path);
    if before[i].full_path != path {
        lemma_find_path_follows_paths(before, after, path, i + 1);
    }
}

/// A table of the paths of the records.
fn table_of_paths(records: &Vec<VirtualFile>) -> (table: TextMap)
    ensures
        is_table_of_paths(table, views(records@)),
{
    let ghost all = views(records@);
    let mut table: TextMap = TextMap::new();
    let mut r: usize = 0;
    while r < records.len()
        invariant
            r <= records@.len(),
            all == views(records@),
            forall|t: int|
                0 <= t < table@.len() ==> {
                    let (path, first) = #[trigger] table@[t];
                    first < r && find_path(all, path, 0) == first
                },
            forall|i: int| 0 <= i < r ==> !lacks_key(table@, (#[trigger] all[i]).full_path),
        decreases records.len() - r,
    {
        let ghost held = table@;
        let path: &String = &records[r].full_path;
        if table.get(path.as_str()).is_none() {
            table.insert(path.as_str(), r);
            proof {
                assert forall|j: int| 0 <= j < r implies (#[trigger] all[j]).full_path != path@ by {
                    assert(!lacks_key(held, all[j].full_path));
                }
                lemma_find_path_is(all, path@, 0, r as int);
                assert forall|i: int| 0 <= i < r + 1 implies !lacks_key(
                    table@,
                    (#[trigger] all[i]).full_path,
                ) by {
                    if i < r {
                        assert(!lacks_key(held, all[i].full_path));
                        let t = choose|t: int|
                            0 <= t < held.len() && (#[trigger] held[t]).0 == all[i].full_path;
                        assert(table@[t] == held[t]);
                    } else {
                        assert(table@[held.len() as int].0 == all[i].full_path);
                    }
                }
            }
        }
        r += 1;
    }
    table
}

/// Merges the results of one worker into the catalogue, the first record of
/// each path being found in `table`.
fn merge_by_table(
    records: &mut Vec<VirtualFile>,
    table: &mut TextMap,
    chunk: &[VirtualFile],
    algorithm: &str,
)
    requires
        is_table_of_paths(*old(table), views(old(records)@)),
    ensures
        is_table_of_paths(*final(table), views(final(records)@)),
        views(final(records)@) == merge_all(views(old(records)@), views(chunk@), algorithm@),
{
    let mut j: usize = 0;
    assert(views(chunk@).take(0) =~= Seq::empty());
    while j < chunk.len()
        invariant
            j <= chunk@.len(),
            is_table_of_paths(*table, views(records@)),
            views(records@) == merge_all(
                views(old(records)@),
                views(chunk@).take(j as int),
                algorithm@,
            ),
        decreases chunk.len() - j,
    {
        let ghost before = views(records@);
        let ghost held = table@;
        let result: &VirtualFile = &chunk[j];
        proof {
            lemma_find_path(before, result@.full_path, 0);
        }
        match table.get(result.full_path.as_str()) {
            Some(i) => {
                proof {
                    let t = choose|t: int|
                        0 <= t < table@.len() && #[trigger] table@[t] == (result@.full_path, i);
                    assert(find_path(before, result@.full_path, 0) == i);
                }
                if let Some(checksums) = &result.checksums {
                    if let Some(digest) = checksums.get(algorithm) {
                        let mut updated: VirtualFile = records[i].duplicate();
                        updated.update_checksum(algorithm, digest.clone());
                        records.set(i, updated);
                        proof {
                            let after = views(records@);
                            assert(after =~= before.update(
                                i as int,
                                attach(before[i as int], algorithm@, digest@),
                            ));
                            assert forall|t: int| 0 <= t < table@.len() implies {
                                let (path, first) = #[trigger] table@[t];
                                first < after.len() && find_path(after, path, 0) == first
                            } by {
                                let (path, first) = table@[t];
                                lemma_find_path_follows_paths(before, after, path, 0);
                            }
                            assert forall|k: int| 0 <= k < after.len() implies !lacks_key(
                                table@,
                                (#[trigger] after[k]).full_path,
                            ) by {
                                assert(!lacks_key(table@, before[k].full_path));
                            }
                        }
                    }
                }
            },
            None => {
                proof {
                    let first = find_path(before, result@.full_path, 0);
                    if first < before.len() {
                        assert(!lacks_key(table@, before[first].full_path));
                    }
                }
                let at: usize = records.len();
                let copy: VirtualFile = result.duplicate();
                records.push(copy);
                table.insert(result.full_path.as_str(), at);
                proof {
                    let after = views(records@);
                    assert(after =~= before.push(result@));
                    assert forall|k: int| 0 <= k < at implies (#[trigger] after[k]).full_path
                        != result@.full_path by {
                        assert(after[k] == before[k]);
                    }
                    lemma_find_path_is(after, result@.full_path, 0, at as int);
                    assert forall|t: int| 0 <= t < table@.len() implies {
                        let (path, first) = #[trigger] table@[t];
                        first < after.len() && find_path(after, path, 0) == first
                    } by {
                        if t < held.len() {
                            assert(table@[t] == held[t]);
                            let (path, first) = held[t];
                            lemma_find_path_follows_paths(before, after, path, 0);
                        }
                    }
                    assert forall|k: int| 0 <= k < after.len() implies !lacks_key(
                        table@,
                        (#[trigger] after[k]).full_path,
                    ) by {
                        if k < before.len() {
                            assert(!lacks_key(held, before[k].full_path));
                            let t = choose|t: int|
                                0 <= t < held.len() && (#[trigger] held[t]).0 == before[k].full_path;
                            assert(table@[t] == held[t]);
                        } else {
                            assert(table@[held.len() as int].0 == after[k].full_path);
                        }
                    }
                }
            },
        }
        j += 1;
        proof {
            let upto = views(chunk@).take(j as int);
            assert(upto.drop_last() =~= views(chunk@).take(j as int - 1));
            assert(upto.last() == result@);
        }
    }
    assert(views(chunk@).take(j as int) =~= views(chunk@));
}

/// Merges the results of one worker into the catalogue.
pub fn merge_chunk(records: &mut Vec<VirtualFile>, chunk: &[VirtualFile], algorithm: &str)
    ensures
        views(final(records)@) == merge_all(views(old(records)@), views(chunk@), algorithm@),
{
    let mut table: TextMap = table_of_paths(records);
    merge_by_table(records, &mut table, chunk, algorithm);
}

/// Checks that every identifier names an algorithm that the library knows,
/// and reports the first that does not.
pub fn check_algorithms(hash_algorithms: &[String]) -> (out: Result<(), DeepFinderError>)
    ensures
        ({
            let bad = first_unsupported(views(hash_algorithms@), 0);
            if 0 <= bad < hash_algorithms@.len() {
                out matches Err(
                    DeepFinderError::SystemError(SystemError::UnsupportedHashAlgorithm(name)),
                ) && name@ == hash_algorithms@[bad]@
            } else {
                out is Ok
            }
        }),
{
    let ghost names = views(hash_algorithms@);
    let mut i: usize = 0;
    while i < hash_algorithms.len()
        invariant
            i <= hash_algorithms@.len(),
            names == views(hash_algorithms@),
            first_unsupported(names, 0) == first_unsupported(names, i as int),
        decreases hash_algorithms.len() - i,
    {
        if HashAlgorithm::from_name(hash_algorithms[i].as_str()).is_none() {
            return Err(
                DeepFinderError::SystemError(
                    SystemError::UnsupportedHashAlgorithm(hash_algorithms[i].clone()),
                ),
            );
        }
        i += 1;
    }
    Ok(())
}

/// The records of a chunk after a worker has hashed them, the first of them
/// being the record at the position `offset` of the catalogue.
pub open spec fn hashed_from(
    chunk: Seq<FileRecord>,
    algorithm: Seq<char>,
    contents: Seq<Option<Seq<u8>>>,
    offset: int,
) -> Seq<FileRecord> {
    Seq::new(chunk.len(), |j: int| hashed(chunk[j], algorithm, content_at(contents, offset + j)))
}

/// The work of one worker on contents held in memory: every record of the
/// chunk is hashed under `algorithm` where its content was read. The first
/// record of the chunk is the record at the position `offset` of the
/// catalogue, and `contents` gives the contents by position in the catalogue.
pub fn hash_chunk(
    chunk: &mut Vec<VirtualFile>,
    offset: usize,
    algorithm: &str,
    contents: &[Option<Vec<u8>>],
)
    ensures
        views(final(chunk)@) == hashed_from(
            views(old(chunk)@),
            algorithm@,
            contents_view(contents@),
            offset as int,
        ),
{
    let ghost plain = views(chunk@);
    let ghost all = hashed_from(plain, algorithm@, contents_view(contents@), offset as int);
    let mut j: usize = 0;
    while j < chunk.len()
        invariant
            j <= chunk@.len(),
            chunk@.len() == plain.len(),
            all == hashed_from(plain, algorithm@, contents_view(contents@), offset as int),
            forall|k: int| 0 <= k < j ==> (#[trigger] chunk@[k])@ == all[k],
            forall|k: int| j <= k < chunk@.len() ==> (#[trigger] chunk@[k])@ == plain[k],
        decreases chunk.len() - j,
    {
        let ghost held = chunk@;
        if offset < contents.len() && j < contents.len() - offset {
            if let Some(bytes) = &contents[offset + j] {
                hash_file(&mut chunk[j], algorithm, bytes.as_slice());
                assert(forall|k: int| 0 <= k < held.len() && k != j ==> chunk@[k] == held[k]);
            }
        }
        assert(chunk@[j as int]@ == all[j as int]);
        j += 1;
    }
    assert(views(chunk@) =~= all);
}

/// The records of the first `n` chunks, one chunk after the other.
pub open spec fn joined_chunks(chunks: Seq<Vec<VirtualFile>>, n: nat) -> Seq<FileRecord>
    decreases n,
{
    if n == 0 || n > chunks.len() {
        Seq::empty()
    } else {
        joined_chunks(chunks, (n - 1) as nat) + views(chunks[n - 1]@)
    }
}

proof fn lemma_joined_chunks_of_prefix(a: Seq<Vec<VirtualFile>>, b: Seq<Vec<VirtualFile>>, n: nat)
    requires
        n <= a.len(),
        n <= b.len(),
        forall|k: int| 0 <= k < n ==> a[k] == b[k],
    ensures
        joined_chunks(a, n) == joined_chunks(b, n),
    decreases n,
{
    if n > 0 {
        lemma_joined_chunks_of_prefix(a, b, (n - 1) as nat);
    }
}

/// Copies of the records in chunks for at most `cores` workers: the chunks of
/// `chunk_ranges`, in order. No chunk is empty, and together they hold every
/// record once, in the order of the records.
pub fn split_chunks(records: &[VirtualFile], cores: usize) -> (chunks: Vec<Vec<VirtualFile>>)
    ensures
        joined_chunks(chunks@, chunks@.len()) == views(records@),
        chunks@.len() <= workers(cores as nat),
        forall|k: int|
            0 <= k < chunks@.len() ==> (#[trigger] chunks@[k])@.len() > 0 && views(chunks@[k]@) == views(
                records@,
            ).subrange(
                chunk_start(records@.len(), cores as nat, k as nat) as int,
                chunk_end(records@.len(), cores as nat, k as nat) as int,
            ),
{
    let ghost all = views(records@);
    let ranges: Vec<(usize, usize)> = chunk_ranges(records.len(), cores);
    let mut chunks: Vec<Vec<VirtualFile>> = Vec::new();
    let mut c: usize = 0;
    assert(all.take(0) =~= Seq::empty());
    while c < ranges.len()
        invariant
            c <= ranges@.len(),
            all == views(records@),
            chunks@.len() == c,
            forall|k: int|
                0 <= k < ranges@.len() ==> {
                    &&& (#[trigger] ranges@[k]).0 == chunk_start(
                        records@.len(),
                        cores as nat,
                        k as nat,
                    )
                    &&& ranges@[k].1 == chunk_end(records@.len(), cores as nat, k as nat)
                    &&& ranges@[k].0 < ranges@[k].1 <= records@.len()
                },
            forall|k: int| 0 < k < ranges@.len() ==> (#[trigger] ranges@[k]).0 == ranges@[k - 1].1,
            ranges@.len() > 0 ==> ranges@[0].0 == 0 && ranges@[ranges@.len() - 1].1 == all.len(),
            forall|k: int|
                0 <= k < c ==> views((#[trigger] chunks@[k])@) == all.subrange(
                    ranges@[k].0 as int,
                    ranges@[k].1 as int,
                ),
            joined_chunks(chunks@, c as nat) == all.take(
                if c == 0 {
                    0
                } else {
                    ranges@[c - 1].1 as int
                },
            ),
        decreases ranges.len() - c,
    {
        let ghost done: int = if c == 0 {
            0
        } else {
            ranges@[c - 1].1 as int
        };
        let ghost held = chunks@;
        let chunk: Vec<VirtualFile> = take_chunk(records, ranges[c].0, ranges[c].1);
        chunks.push(chunk);
        proof {
            assert(ranges@[c as int].0 == done);
            lemma_joined_chunks_of_prefix(held, chunks@, c as nat);
            assert(all.take(done) + all.subrange(done, ranges@[c as int].1 as int) =~= all.take(
                ranges@[c as int].1 as int,
            ));
        }
        c += 1;
    }
    proof {
        if ranges@.len() == 0 {
            assert(all.take(0) =~= all);
        } else {
            assert(all.take(all.len() as int) =~= all);
        }
    }
    chunks
}

/// Merges the results of the workers into the catalogue, chunk after chunk.
pub fn merge_results(records: &mut Vec<VirtualFile>, results: &[Vec<VirtualFile>], algorithm: &str)
    ensures
        views(final(records)@) == merge_all(
            views(old(records)@),
            joined_chunks(results@, results@.len()),
            algorithm@,
        ),
{
    let mut table: TextMap = table_of_paths(records);
    let mut c: usize = 0;
    while c < results.len()
        invariant
            c <= results@.len(),
            is_table_of_paths(table, views(records@)),
            views(records@) == merge_all(
                views(old(records)@),
                joined_chunks(results@, c as nat),
                algorithm@,
            ),
        decreases results.len() - c,
    {
        proof {
            lemma_merge_in_lots(
                views(old(records)@),
                joined_chunks(results@, c as nat),
                views(results@[c as int]@),
                algorithm@,
            );
        }
        merge_by_table(records, &mut table, results[c].as_slice(), algorithm);
        c += 1;
    }
}

/// The first chunks, joined, are the start of all the chunks, joined.
proof fn lemma_joined_chunks_start(chunks: Seq<Vec<VirtualFile>>, n: nat, m: nat)
    requires
        n <= m <= chunks.len(),
    ensures
        joined_chunks(chunks, n).len() <= joined_chunks(chunks, m).len(),
        joined_chunks(chunks, n) == joined_chunks(chunks, m).take(joined_chunks(chunks, n).len() as int),
    decreases m,
{
    if n < m {
        lemma_joined_chunks_start(chunks, n, (m - 1) as nat);
        let shorter = joined_chunks(chunks, (m - 1) as nat);
        let whole = joined_chunks(chunks, m);
        assert(whole == shorter + views(chunks[m - 1]@));
        assert(joined_chunks(chunks, n) =~= whole.take(joined_chunks(chunks, n).len() as int));
    } else {
        assert(joined_chunks(chunks, n).take(joined_chunks(chunks, n).len() as int) =~= joined_chunks(
            chunks,
            n,
        ));
    }
}

/// Each chunk of `results` is the chunk of `chunks` at its place, hashed by
/// a worker that knows where in the catalogue its chunk starts.
pub open spec fn are_hashed_chunks(
    chunks: Seq<Vec<VirtualFile>>,
    results: Seq<Vec<VirtualFile>>,
    algorithm: Seq<char>,
    contents: Seq<Option<Seq<u8>>>,
) -> bool {
    &&& results.len() == chunks.len()
    &&& forall|c: int|
        0 <= c < chunks.len() ==> views((#[trigger] results[c])@) == hashed_from(
            views(chunks[c]@),
            algorithm,
            contents,
            joined_chunks(chunks, c as nat).len() as int,
        )
}

proof fn lemma_hashed_chunks_join(
    chunks: Seq<Vec<VirtualFile>>,
    results: Seq<Vec<VirtualFile>>,
    algorithm: Seq<char>,
    contents: Seq<Option<Seq<u8>>>,
    n: nat,
)
    requires
        n <= chunks.len(),
        are_hashed_chunks(chunks, results, algorithm, contents),
    ensures
        joined_chunks(results, n) == hashed_all(joined_chunks(chunks, n), algorithm, contents),
    decreases n,
{
    if n == 0 {
        assert(joined_chunks(results, n) =~= hashed_all(joined_chunks(chunks, n), algorithm, contents));
    } else {
        lemma_hashed_chunks_join(chunks, results, algorithm, contents, (n - 1) as nat);
        let before = joined_chunks(chunks, (n - 1) as nat);
        let chunk = views(chunks[n - 1]@);
        assert(views(results[n - 1]@) == hashed_from(chunk, algorithm, contents, before.len() as int));
        assert(joined_chunks(results, n) =~= hashed_all(before + chunk, algorithm, contents));
    }
}

/// Hashing the chunks apart and merging them back is a pass: where the
/// records are split into chunks, each chunk is hashed by a worker of its
/// own, and the chunks are merged in their order, the catalogue is what a
/// pass over the whole catalogue gives. In which order the workers run, and
/// how many chunks there are, does not matter.
pub proof fn lemma_hashed_chunks_make_the_pass(
    records: Seq<FileRecord>,
    chunks: Seq<Vec<VirtualFile>>,
    results: Seq<Vec<VirtualFile>>,
    algorithm: Seq<char>,
    contents: Seq<Option<Seq<u8>>>,
)
    requires
        joined_chunks(chunks, chunks.len()) == records,
        are_hashed_chunks(chunks, results, algorithm, contents),
    ensures
        joined_chunks(results, results.len()) == hashed_all(records, algorithm, contents),
        merge_all(records, joined_chunks(results, results.len()), algorithm) == pass(
            records,
            algorithm,
            contents,
        ),
{
    lemma_hashed_chunks_join(chunks, results, algorithm, contents, chunks.len());
}

/// One pass: the records are split into chunks for `cores` workers, each
/// chunk is hashed on copies, and the chunks are merged back in their order.
/// What comes out does not depend on `cores`.
pub fn run_pass(
    records: &mut Vec<VirtualFile>,
    algorithm: &str,
    contents: &[Option<Vec<u8>>],
    cores: usize,
)
    ensures
        views(final(records)@) == pass(views(old(records)@), algorithm@, contents_view(contents@)),
{
    let mut chunks: Vec<Vec<VirtualFile>> = split_chunks(records.as_slice(), cores);
    let ghost plain = chunks@;
    let mut offset: usize = 0;
    let mut c: usize = 0;
    while c < chunks.len()
        invariant
            c <= chunks@.len(),
            chunks@.len() == plain.len(),
            joined_chunks(plain, plain.len()) == views(records@),
            offset == joined_chunks(plain, c as nat).len(),
            forall|k: int|
                0 <= k < c ==> views((#[trigger] chunks@[k])@) == hashed_from(
                    views(plain[k]@),
                    algorithm@,
                    contents_view(contents@),
                    joined_chunks(plain, k as nat).len() as int,
                ),
            forall|k: int| c <= k < chunks@.len() ==> (#[trigger] chunks@[k]) == plain[k],
        decreases chunks.len() - c,
    {
        let ghost held = chunks@;
        proof {
            lemma_joined_chunks_start(plain, (c + 1) as nat, plain.len());
        }
        hash_chunk(&mut chunks[c], offset, algorithm, contents);
        assert(forall|k: int| 0 <= k < held.len() && k != c ==> chunks@[k] == held[k]);
        proof {
            assert(views(chunks@[c as int]@).len() == views(plain[c as int]@).len());
            assert(joined_chunks(plain, (c + 1) as nat).len() == offset + plain[c as int]@.len());
            assert(joined_chunks(plain, plain.len()).len() == records@.len());
            assert(records@.len() == records.len());
            assert(chunks@[c as int]@.len() == plain[c as int]@.len());
        }
        offset += chunks[c].len();
        c += 1;
    }
    proof {
        lemma_hashed_chunks_make_the_pass(
            views(records@),
            plain,
            chunks@,
            algorithm@,
            contents_view(contents@),
        );
    }
    merge_results(records, chunks.as_slice(), algorithm);
}

/// Computes the digests of every record under each of `hash_algorithms`, one
/// pass for each algorithm, in the order given. `contents` gives, position by
/// position, the content of the record's file, or `None` for a file that
/// could not be read: such a file gets no digest.
///
/// The identifiers are checked before any hashing. With one that names no
/// known algorithm, the first such is reported and the records stay as they
/// are.
pub fn hash_handler(
    hash_algorithms: &[String],
    virtual_files: &mut Vec<VirtualFile>,
    contents: &[Option<Vec<u8>>],
) -> (out: Result<(), DeepFinderError>)
    ensures
        ({
            let bad = first_unsupported(views(hash_algorithms@), 0);
            if 0 <= bad < hash_algorithms@.len() {
                &&& out matches Err(
                    DeepFinderError::SystemError(SystemError::UnsupportedHashAlgorithm(name)),
                ) && name@ == hash_algorithms@[bad]@
                &&& views(final(virtual_files)@) == views(old(virtual_files)@)
            } else {
                &&& out is Ok
                &&& views(final(virtual_files)@) == passes(
                    views(old(virtual_files)@),
                    views(hash_algorithms@),
                    contents_view(contents@),
                )
            }
        }),
{
    let ghost names = views(hash_algorithms@);
    match check_algorithms(hash_algorithms) {
        Ok(()) => {},
        Err(e) => {
            return Err(e);
        },
    }
    let cores: usize = available_cores();
    let mut a: usize = 0;
    assert(names.take(0) =~= Seq::empty());
    while a < hash_algorithms.len()
        invariant
            a <= hash_algorithms@.len(),
            names == views(hash_algorithms@),
            views(virtual_files@) == passes(
                views(old(virtual_files)@),
                names.take(a as int),
                contents_view(contents@),
            ),
        decreases hash_algorithms.len() - a,
    {
        run_pass(virtual_files, hash_algorithms[a].as_str(), contents, cores);
        a += 1;
        proof {
            let upto = names.take(a as int);
            assert(upto.drop_last() =~= names.take(a as int - 1));
            assert(upto.last() == hash_algorithms@[a as int - 1]@);
        }
    }
    assert(names.take(a as int) =~= names);
    Ok(())
}

} // verus!
