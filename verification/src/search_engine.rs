//! The duplicate grouper: files that share a name, or a set of digests, are
//! gathered into groups.

use crate::checksums::{render_key, Checksums};
use crate::cli::FindingConfig;
use crate::system::{has_distinct_paths, FileRecord, VirtualFile};
use crate::text::views;
use crate::text_map::TextMap;
use vstd::prelude::*;

verus! {

/// What a `DuplicateFile` stands for: the files that share one grouping key.
pub struct DuplicateGroup {
    pub name: Seq<char>,
    pub paths: Seq<Seq<char>>,
    pub checksums: Option<Seq<(Seq<char>, Seq<char>)>>,
    pub size: u64,
}

/// A group of files that share a grouping key: the name, size and digests of
/// the first of them, and the paths of all of them, none twice.
#[derive(Debug, Clone, PartialEq, Eq)]
pub struct DuplicateFile {
    pub paths: Vec<String>,
    pub name: String,
    pub checksums: Option<Checksums>,
    pub size: u64,
}

impl View for DuplicateFile {
    type V = DuplicateGroup;

    open spec fn view(&self) -> DuplicateGroup {
        DuplicateGroup {
            name: self.name@,
            paths: views(self.paths@),
            checksums: match self.checksums {
                Some(c) => Some(c@),
                None => None,
            },
            size: self.size,
        }
    }
}

impl DuplicateFile {
    /// The number of files in the group.
    pub fn nb_occurrences(&self) -> (n: usize)
        ensures
            n == self@.paths.len(),
    {
        self.paths.len()
    }
}

/// The grouping key of a record: its name when grouping by name, else the
/// rendering of its digests, in ascending order of algorithm. A record
/// without a digest has no key when grouping by digest.
pub open spec fn record_key(record: FileRecord, by_name: bool) -> Option<Seq<char>> {
    if by_name {
        Some(record.name)
    } else {
        match record.checksums {
            Some(pairs) => if pairs.len() > 0 {
                Some(render_key(pairs))
            } else {
                None
            },
            None => None,
        }
    }
}

/// The grouping key that the members of a group share.
pub open spec fn group_key(group: DuplicateGroup, by_name: bool) -> Seq<char> {
    if by_name {
        group.name
    } else {
        match group.checksums {
            Some(pairs) => render_key(pairs),
            None => Seq::empty(),
        }
    }
}

/// The position of the first group at or after `i` whose key is `key`, or the
/// number of groups where there is none.
pub open spec fn find_group(groups: Seq<DuplicateGroup>, key: Seq<char>, by_name: bool, i: int) -> int
    decreases groups.len() - i,
{
    if i < 0 || i >= groups.len() {
        groups.len() as int
    } else if group_key(groups[i], by_name) == key {
        i
    } else {
        find_group(groups, key, by_name, i + 1)
    }
}

/// `group` with `path` among its paths.
pub open spec fn add_path(group: DuplicateGroup, path: Seq<char>) -> DuplicateGroup {
    if group.paths.contains(path) {
        group
    } else {
        DuplicateGroup { paths: group.paths.push(path), ..group }
    }
}

/// The group that a record founds: its name and size, its digests when
/// grouping by digest, and its path.
pub open spec fn founded_by(record: FileRecord, by_name: bool) -> DuplicateGroup {
    DuplicateGroup {
        name: record.name,
        paths: seq![record.full_path],
        checksums: if by_name {
            None
        } else {
            record.checksums
        },
        size: record.size,
    }
}

/// `groups` after `record` has been taken into account: it joins the group of
/// its key, or founds one behind the others; without a key it is passed over.
pub open spec fn add_record(groups: Seq<DuplicateGroup>, record: FileRecord, by_name: bool) -> Seq<
    DuplicateGroup,
> {
    match record_key(record, by_name) {
        None => groups,
        Some(key) => {
            let j = find_group(groups, key, by_name, 0);
            if 0 <= j < groups.len() {
                groups.update(j, add_path(groups[j], record.full_path))
            } else {
                groups.push(founded_by(record, by_name))
            }
        },
    }
}

/// The groups of `records`, in the order in which their first members come.
pub open spec fn group_all(records: Seq<FileRecord>, by_name: bool) -> Seq<DuplicateGroup>
    decreases records.len(),
{
    if records.len() == 0 {
        Seq::empty()
    } else {
        add_record(group_all(records.drop_last(), by_name), records.last(), by_name)
    }
}

/// The groups with more than one file, in their order.
pub open spec fn duplicates(groups: Seq<DuplicateGroup>) -> Seq<DuplicateGroup>
    decreases groups.len(),
{
    if groups.len() == 0 {
        Seq::empty()
    } else if groups.last().paths.len() > 1 {
        duplicates(groups.drop_last()).push(groups.last())
    } else {
        duplicates(groups.drop_last())
    }
}

/// Some group has the key `key` and holds `path`.
pub open spec fn has_member(
    groups: Seq<DuplicateGroup>,
    by_name: bool,
    key: Seq<char>,
    path: Seq<char>,
) -> bool {
    exists|g: int|
        0 <= g < groups.len() && group_key(#[trigger] groups[g], by_name) == key && groups[g].paths.contains(
            path,
        )
}

/// Some record has the key `key` and the path `path`.
pub open spec fn has_source(
    records: Seq<FileRecord>,
    by_name: bool,
    key: Seq<char>,
    path: Seq<char>,
) -> bool {
    exists|i: int|
        0 <= i < records.len() && record_key(#[trigger] records[i], by_name) == Some(key)
            && records[i].full_path == path
}

/// `groups` is a partition of the records that have a key: the groups have
/// different keys, each record is in the group of its key, each path of a
/// group comes from a record of the group's key, no group is empty and none
/// holds a path twice.
pub open spec fn is_partition(records: Seq<FileRecord>, groups: Seq<DuplicateGroup>, by_name: bool) -> bool {
    &&& forall|a: int, b: int|
        0 <= a < b < groups.len() ==> group_key(#[trigger] groups[a], by_name) != group_key(
            #[trigger] groups[b],
            by_name,
        )
    &&& forall|i: int|
        0 <= i < records.len() && record_key(#[trigger] records[i], by_name) is Some ==> has_member(
            groups,
            by_name,
            record_key(records[i], by_name)->0,
            records[i].full_path,
        )
    &&& forall|g: int, p: Seq<char>|
        0 <= g < groups.len() && (#[trigger] groups[g]).paths.contains(p) ==> #[trigger] has_source(
            records,
            by_name,
            group_key(groups[g], by_name),
            p,
        )
    &&& forall|g: int|
        0 <= g < groups.len() ==> (#[trigger] groups[g]).paths.len() >= 1 && groups[g].paths.no_duplicates()
}

proof fn lemma_find_group(groups: Seq<DuplicateGroup>, key: Seq<char>, by_name: bool, i: int)
    requires
        0 <= i <= groups.len(),
    ensures
        i <= find_group(groups, key, by_name, i) <= groups.len(),
        find_group(groups, key, by_name, i) < groups.len() ==> group_key(
            groups[find_group(groups, key, by_name, i)],
            by_name,
        ) == key,
        forall|k: int|
            i <= k < find_group(groups, key, by_name, i) ==> group_key(#[trigger] groups[k], by_name)
                != key,
    decreases groups.len() - i,
{
    if i < groups.len() && group_key(groups[i], by_name) != key {
        lemma_find_group(groups, key, by_name, i + 1);
    }
}

proof fn lemma_add_record_partition(
    records: Seq<FileRecord>,
    groups: Seq<DuplicateGroup>,
    record: FileRecord,
    by_name: bool,
)
    requires
        is_partition(records, groups, by_name),
    ensures
        is_partition(records.push(record), add_record(groups, record, by_name), by_name),
{
    let after = add_record(groups, record, by_name);
    let all = records.push(record);
    let n = records.len() as int;
    assert(forall|i: int| 0 <= i < n ==> all[i] == records[i]);
    assert(all[n] == record);
    match record_key(record, by_name) {
        None => {
            assert forall|g: int, p: Seq<char>|
                0 <= g < after.len() && (#[trigger] after[g]).paths.contains(p) implies #[trigger] has_source(
                all,
                by_name,
                group_key(after[g], by_name),
                p,
            ) by {
                assert(has_source(records, by_name, group_key(groups[g], by_name), p));
                let i = choose|i: int|
                    0 <= i < records.len() && record_key(#[trigger] records[i], by_name) == Some(
                        group_key(groups[g], by_name),
                    ) && records[i].full_path == p;
                assert(all[i] == records[i]);
            }
        },
        Some(key) => {
            let j = find_group(groups, key, by_name, 0);
            lemma_find_group(groups, key, by_name, 0);
            let path = record.full_path;
            if j < groups.len() {
                assert forall|g: int| 0 <= g < after.len() implies group_key(
                    #[trigger] after[g],
                    by_name,
                ) == group_key(groups[g], by_name) && (forall|p: Seq<char>|
                    groups[g].paths.contains(p) ==> after[g].paths.contains(p)) by {
                    if g == j && !groups[j].paths.contains(path) {
                        assert forall|p: Seq<char>| groups[g].paths.contains(p) implies after[g].paths.contains(
                            p,
                        ) by {
                            let k = choose|k: int| 0 <= k < groups[g].paths.len() && groups[g].paths[k] == p;
                            assert(after[g].paths[k] == p);
                        }
                    }
                }
                assert forall|a: int, b: int| 0 <= a < b < after.len() implies group_key(
                    #[trigger] after[a],
                    by_name,
                ) != group_key(#[trigger] after[b], by_name) by {
                    assert(group_key(groups[a], by_name) != group_key(groups[b], by_name));
                }
                assert forall|i: int|
                    0 <= i < all.len() && record_key(#[trigger] all[i], by_name) is Some implies has_member(
                    after,
                    by_name,
                    record_key(all[i], by_name)->0,
                    all[i].full_path,
                ) by {
                    if i < n {
                        assert(has_member(
                            groups,
                            by_name,
                            record_key(records[i], by_name)->0,
                            records[i].full_path,
                        ));
                        let g = choose|g: int|
                            0 <= g < groups.len() && group_key(#[trigger] groups[g], by_name)
                                == record_key(records[i], by_name)->0 && groups[g].paths.contains(
                                records[i].full_path,
                            );
                        assert(group_key(after[g], by_name) == group_key(groups[g], by_name));
                    } else {
                        if !groups[j].paths.contains(path) {
                            assert(after[j].paths[groups[j].paths.len() as int] == path);
                        }
                        assert(group_key(after[j], by_name) == key);
                        assert(after[j].paths.contains(path));
                    }
                }
                assert forall|g: int, p: Seq<char>|
                    0 <= g < after.len() && (#[trigger] after[g]).paths.contains(p) implies #[trigger] has_source(
                    all,
                    by_name,
                    group_key(after[g], by_name),
                    p,
                ) by {
                    assert(group_key(after[g], by_name) == group_key(groups[g], by_name));
                    if groups[g].paths.contains(p) {
                        assert(has_source(records, by_name, group_key(groups[g], by_name), p));
                        let i = choose|i: int|
                            0 <= i < records.len() && record_key(#[trigger] records[i], by_name) == Some(
                                group_key(groups[g], by_name),
                            ) && records[i].full_path == p;
                        assert(all[i] == records[i]);
                    } else {
                        // the path is the one that was added
                        let k = choose|k: int| 0 <= k < after[g].paths.len() && after[g].paths[k] == p;
                        if k < groups[g].paths.len() {
                            assert(groups[g].paths[k] == p);
                        }
                        assert(g == j && p == path);
                        assert(all[n] == record);
                    }
                }
                assert forall|g: int| 0 <= g < after.len() implies (#[trigger] after[g]).paths.len() >= 1
                    && after[g].paths.no_duplicates() by {
                    assert(groups[g].paths.len() >= 1 && groups[g].paths.no_duplicates());
                }
            } else {
                let founded = founded_by(record, by_name);
                assert(group_key(founded, by_name) == key);
                assert(founded.paths[0] == path);
                assert forall|a: int, b: int| 0 <= a < b < after.len() implies group_key(
                    #[trigger] after[a],
                    by_name,
                ) != group_key(#[trigger] after[b], by_name) by {
                    if b < groups.len() {
                        assert(group_key(groups[a], by_name) != group_key(groups[b], by_name));
                    } else {
                        assert(group_key(groups[a], by_name) != key);
                    }
                }
                assert forall|i: int|
                    0 <= i < all.len() && record_key(#[trigger] all[i], by_name) is Some implies has_member(
                    after,
                    by_name,
                    record_key(all[i], by_name)->0,
                    all[i].full_path,
                ) by {
                    if i < n {
                        assert(has_member(
                            groups,
                            by_name,
                            record_key(records[i], by_name)->0,
                            records[i].full_path,
                        ));
                        let g = choose|g: int|
                            0 <= g < groups.len() && group_key(#[trigger] groups[g], by_name)
                                == record_key(records[i], by_name)->0 && groups[g].paths.contains(
                                records[i].full_path,
                            );
                        assert(after[g] == groups[g]);
                    } else {
                        assert(after[groups.len() as int] == founded);
                        assert(founded.paths.contains(path));
                    }
                }
                assert forall|g: int, p: Seq<char>|
                    0 <= g < after.len() && (#[trigger] after[g]).paths.contains(p) implies #[trigger] has_source(
                    all,
                    by_name,
                    group_key(after[g], by_name),
                    p,
                ) by {
                    if g < groups.len() {
                        assert(has_source(records, by_name, group_key(groups[g], by_name), p));
                        let i = choose|i: int|
                            0 <= i < records.len() && record_key(#[trigger] records[i], by_name) == Some(
                                group_key(groups[g], by_name),
                            ) && records[i].full_path == p;
                        assert(all[i] == records[i]);
                    } else {
                        assert(all[n] == record);
                    }
                }
            }
        },
    }
}

/// Grouping partitions the records that have a key: the groups have pairwise
/// different keys; every such record is in the group of its key; every path
/// of a group is that of a record with the group's key; no group is empty,
/// and none holds a path twice. When grouping by name, the key of a group is
/// the name that all its members share.
pub proof fn lemma_grouping_partitions(records: Seq<FileRecord>, by_name: bool)
    ensures
        is_partition(records, group_all(records, by_name), by_name),
    decreases records.len(),
{
    if records.len() > 0 {
        lemma_grouping_partitions(records.drop_last(), by_name);
        lemma_add_record_partition(
            records.drop_last(),
            group_all(records.drop_last(), by_name),
            records.last(),
            by_name,
        );
        assert(records.drop_last().push(records.last()) =~= records);
    }
}

/// Where no two records have the same path, a record is in no group but
/// that of its key: a group that holds its path has its key.
pub proof fn lemma_record_in_one_group(records: Seq<FileRecord>, by_name: bool, i: int, g: int)
    requires
        has_distinct_paths(records),
        0 <= i < records.len(),
        0 <= g < group_all(records, by_name).len(),
        group_all(records, by_name)[g].paths.contains(records[i].full_path),
    ensures
        record_key(records[i], by_name) == Some(group_key(group_all(records, by_name)[g], by_name)),
{
    lemma_grouping_partitions(records, by_name);
    let groups = group_all(records, by_name);
    assert(has_source(records, by_name, group_key(groups[g], by_name), records[i].full_path));
    let j = choose|j: int|
        0 <= j < records.len() && record_key(#[trigger] records[j], by_name) == Some(
            group_key(groups[g], by_name),
        ) && records[j].full_path == records[i].full_path;
    if j < i {
        assert(records[j].full_path != records[i].full_path);
    } else if i < j {
        assert(records[i].full_path != records[j].full_path);
    }
}

/// The duplicates are the groups of more than one file, and no other.
pub proof fn lemma_duplicates_are_the_large_groups(groups: Seq<DuplicateGroup>)
    ensures
        forall|g: DuplicateGroup| #[trigger]
            duplicates(groups).contains(g) <==> groups.contains(g) && g.paths.len() > 1,
    decreases groups.len(),
{
    if groups.len() == 0 {
        assert forall|g: DuplicateGroup| #[trigger] duplicates(groups).contains(g) implies false by {}
    } else {
        let rest = groups.drop_last();
        let last = groups.last();
        lemma_duplicates_are_the_large_groups(rest);
        assert forall|g: DuplicateGroup| #[trigger]
            duplicates(groups).contains(g) <==> groups.contains(g) && g.paths.len() > 1 by {
            let found = duplicates(groups);
            if found.contains(g) {
                let t = choose|t: int| 0 <= t < found.len() && found[t] == g;
                if last.paths.len() > 1 && t == found.len() - 1 {
                    assert(groups[groups.len() - 1] == g);
                } else {
                    assert(duplicates(rest)[t] == g);
                    assert(duplicates(rest).contains(g));
                    let k = choose|k: int| 0 <= k < rest.len() && rest[k] == g;
                    assert(groups[k] == g);
                }
            }
            if groups.contains(g) && g.paths.len() > 1 {
                let k = choose|k: int| 0 <= k < groups.len() && groups[k] == g;
                if k < rest.len() {
                    assert(rest[k] == g);
                    assert(rest.contains(g));
                    assert(duplicates(rest).contains(g));
                    let t = choose|t: int| 0 <= t < duplicates(rest).len() && duplicates(rest)[t] == g;
                    assert(found[t] == g);
                } else {
                    assert(found[found.len() - 1] == g);
                }
            }
        }
    }
}

/// The grouping key of a record, if it has one.
fn key_of(file: &VirtualFile, by_name: bool) -> (key: Option<String>)
    ensures
        match record_key(file@, by_name) {
            Some(k) => key matches Some(s) && s@ == k,
            None => key is None,
        },
{
    if by_name {
        Some(file.name.clone())
    } else {
        match &file.checksums {
            Some(checksums) => if checksums.is_empty() {
                None
            } else {
                Some(checksums.grouping_key())
            },
            None => None,
        }
    }
}

/// The table holds the keys of the groups, each with the position of its
/// group.
spec fn is_table_of_keys(table: TextMap, groups: Seq<DuplicateFile>, by_name: bool) -> bool {
    &&& table@.len() == groups.len()
    &&& forall|k: int|
        0 <= k < groups.len() ==> (#[trigger] table@[k]) == (group_key(groups[k]@, by_name), k as usize)
}

/// For each group a table holds its paths.
spec fn are_tables_of_paths(tables: Seq<TextMap>, groups: Seq<DuplicateFile>) -> bool {
    &&& tables.len() == groups.len()
    &&& forall|k: int| 0 <= k < groups.len() ==> is_table_of_paths(#[trigger] tables[k], groups[k])
}

/// The table holds the paths of the group, in their order.
spec fn is_table_of_paths(table: TextMap, group: DuplicateFile) -> bool {
    &&& table@.len() == group.paths@.len()
    &&& forall|t: int| 0 <= t < group.paths@.len() ==> (#[trigger] table@[t]).0 == group.paths@[t]@
}

/// Gathers the records into groups by grouping key: by name, or by digests.
/// Every record that has a key is in the group of its key, and in no other.
pub fn group_files(virtual_files: &[VirtualFile], by_name: bool) -> (groups: Vec<DuplicateFile>)
    ensures
        views(groups@) == group_all(views(virtual_files@), by_name),
{
    let mut groups: Vec<DuplicateFile> = Vec::new();
    let mut keys: TextMap = TextMap::new();
    let mut members: Vec<TextMap> = Vec::new();
    let mut i: usize = 0;
    assert(views(virtual_files@).take(0) =~= Seq::empty());
    assert(views(groups@) =~= Seq::empty());
    while i < virtual_files.len()
        invariant
            i <= virtual_files@.len(),
            is_table_of_keys(keys, groups@, by_name),
            are_tables_of_paths(members@, groups@),
            views(groups@) == group_all(views(virtual_files@).take(i as int), by_name),
        decreases virtual_files.len() - i,
    {
        let ghost before = views(groups@);
        let ghost held = groups@;
        let ghost tables = members@;
        let file: &VirtualFile = &virtual_files[i];
        proof {
            let upto = views(virtual_files@).take(i as int + 1);
            assert(upto.drop_last() =~= views(virtual_files@).take(i as int));
            assert(upto.last() == file@);
        }
        if let Some(key) = key_of(file, by_name) {
            keys.keys_are_distinct();
            proof {
                lemma_find_group(before, key@, by_name, 0);
            }
            match keys.get(key.as_str()) {
                Some(j) => {
                    proof {
                        let at = choose|at: int| 0 <= at < keys@.len() && #[trigger] keys@[at] == (key@, j);
                        assert(groups@.len() == groups.len());
                        assert(keys@[at] == (group_key(held[at]@, by_name), at as usize));
                        assert(at == j);
                        let first = find_group(before, key@, by_name, 0);
                        if first < j {
                            assert(keys@[first].0 != keys@[j as int].0);
                        }
                        assert(first == j);
                    }
                    if members[j].get(file.full_path.as_str()).is_none() {
                        groups[j].paths.push(file.full_path.clone());
                        members[j].insert(file.full_path.as_str(), 0);
                        proof {
                            assert(groups@.len() == held.len());
                            assert(groups@[j as int].name == held[j as int].name);
                            assert(groups@[j as int].checksums == held[j as int].checksums);
                            assert(views(groups@[j as int].paths@) =~= views(held[j as int].paths@).push(
                                file@.full_path,
                            ));
                            assert(forall|k: int|
                                0 <= k < held.len() && k != j ==> groups@[k] == held[k] && members@[k]
                                    == tables[k]);
                            assert(!views(held[j as int].paths@).contains(file@.full_path)) by {
                                if views(held[j as int].paths@).contains(file@.full_path) {
                                    let t = choose|t: int|
                                        0 <= t < views(held[j as int].paths@).len() && views(
                                            held[j as int].paths@,
                                        )[t] == file@.full_path;
                                    assert(tables[j as int]@[t].0 == file@.full_path);
                                }
                            }
                        }
                    } else {
                        proof {
                            let t = choose|t: int|
                                0 <= t < tables[j as int]@.len() && (#[trigger] tables[j as int]@[t]).0
                                    == file@.full_path;
                            assert(views(held[j as int].paths@)[t] == file@.full_path);
                        }
                    }
                    assert(groups@[j as int]@ == add_path(before[j as int], file@.full_path));
                    assert(views(groups@) =~= before.update(
                        j as int,
                        add_path(before[j as int], file@.full_path),
                    ));
                },
                None => {
                    proof {
                        let first = find_group(before, key@, by_name, 0);
                        if first < before.len() {
                            assert(keys@[first].0 == key@);
                        }
                    }
                    let mut paths: Vec<String> = Vec::new();
                    paths.push(file.full_path.clone());
                    assert(views(paths@) =~= seq![file@.full_path]);
                    let mut table: TextMap = TextMap::new();
                    table.insert(file.full_path.as_str(), 0);
                    let group = DuplicateFile {
                        paths,
                        name: file.name.clone(),
                        checksums: if by_name {
                            None
                        } else {
                            match &file.checksums {
                                Some(c) => Some(c.duplicate()),
                                None => None,
                            }
                        },
                        size: file.size,
                    };
                    assert(group@ == founded_by(file@, by_name));
                    assert(is_table_of_paths(table, group));
                    keys.insert(key.as_str(), groups.len());
                    groups.push(group);
                    members.push(table);
                    assert(views(groups@) =~= before.push(founded_by(file@, by_name)));
                },
            }
        }
        i += 1;
    }
    assert(views(virtual_files@).take(i as int) =~= views(virtual_files@));
    groups
}

/// The groups of more than one file among the records: the files that have a
/// duplicate, by name where the configuration says so, else by digests.
pub fn search_eventual_duplicates(virtual_files: &[VirtualFile], config: &FindingConfig) -> (found: Vec<
    DuplicateFile,
>)
    ensures
        views(found@) == duplicates(group_all(views(virtual_files@), config.enable_search_by_name)),
{
    let mut groups: Vec<DuplicateFile> = group_files(virtual_files, config.enable_search_by_name);
    let ghost all = views(groups@);
    let mut found: Vec<DuplicateFile> = Vec::new();
    let mut i: usize = 0;
    assert(all.take(0) =~= Seq::empty());
    assert(views(found@) =~= Seq::empty());
    while i < groups.len()
        invariant
            i <= groups@.len(),
            all.len() == groups@.len(),
            forall|k: int| i <= k < groups@.len() ==> (#[trigger] groups@[k])@ == all[k],
            views(found@) == duplicates(all.take(i as int)),
        decreases groups.len() - i,
    {
        let ghost before = views(found@);
        proof {
            let upto = all.take(i as int + 1);
            assert(upto.drop_last() =~= all.take(i as int));
            assert(upto.last() == all[i as int]);
        }
        if groups[i].paths.len() > 1 {
            let mut group = DuplicateFile {
                paths: Vec::new(),
                name: String::new(),
                checksums: None,
                size: 0,
            };
            core::mem::swap(&mut groups[i], &mut group);
            found.push(group);
            assert(views(found@) =~= before.push(all[i as int]));
        }
        i += 1;
    }
    assert(all.take(i as int) =~= all);
    found
}

} // verus!
