//! The directory scanner: the files below a root, in an order that depends on
//! the names alone.

use crate::error::SystemError;
use crate::listing::{
    is_listed, lemma_listing_order, lemma_order_holds_listed, listing_order, place, sorted_listing,
    DirContent, DirEntry, EntryKind,
};
use crate::paths::component_start;
use crate::text::{
    free_of, lemma_ascending_is_canonical, lemma_lex_irreflexive, lex_lt, strictly_ascending, views,
};
use vstd::prelude::*;
use vstd::string::StringExecFns;

verus! {

/// The path of the entry `name` of the directory `dir`.
pub open spec fn child_path(dir: Seq<char>, name: Seq<char>) -> Seq<char> {
    dir + seq!['/'] + name
}

/// What a scan of the directory `dir` gives: the paths of its files, or the
/// reason for which the first directory that could not be read failed.
///
/// The listed entries are taken in ascending order of name. The files found
/// below the subdirectories come first, subdirectory by subdirectory, then the
/// files of the directory itself.
pub open spec fn scan(dir: Seq<char>, content: DirContent, include_hidden: bool) -> Result<
    Seq<Seq<char>>,
    Seq<char>,
>
    decreases content,
{
    match content {
        DirContent::Unreadable(reason) => Err(reason@),
        DirContent::Entries(entries) => {
            let order = listing_order(entries@, include_hidden, entries@.len());
            match scan_subdirs(dir, entries@, order, order.len(), include_hidden) {
                Err(reason) => Err(reason),
                Ok(nested) => Ok(nested + level_files(dir, entries@, order, order.len())),
            }
        },
    }
}

/// What the scans of the subdirectories among the first `n` entries of `order`
/// give, one after the other; the first failure ends it.
pub open spec fn scan_subdirs(
    dir: Seq<char>,
    entries: Seq<DirEntry>,
    order: Seq<usize>,
    n: nat,
    include_hidden: bool,
) -> Result<Seq<Seq<char>>, Seq<char>>
    decreases entries, n,
{
    if n == 0 || n > order.len() {
        Ok(Seq::empty())
    } else {
        match scan_subdirs(dir, entries, order, (n - 1) as nat, include_hidden) {
            Err(reason) => Err(reason),
            Ok(found) => {
                let x = order[n - 1] as int;
                if x < entries.len() {
                    match entries[x].kind {
                        EntryKind::Directory(sub) => match scan(
                            child_path(dir, entries[x].name@),
                            sub,
                            include_hidden,
                        ) {
                            Err(reason) => Err(reason),
                            Ok(inner) => Ok(found + inner),
                        },
                        _ => Ok(found),
                    }
                } else {
                    Ok(found)
                }
            },
        }
    }
}

/// The paths of the regular files among the first `n` entries of `order`.
pub open spec fn level_files(dir: Seq<char>, entries: Seq<DirEntry>, order: Seq<usize>, n: nat) -> Seq<
    Seq<char>,
>
    decreases n,
{
    if n == 0 || n > order.len() {
        Seq::empty()
    } else {
        let rest = level_files(dir, entries, order, (n - 1) as nat);
        let x = order[n - 1] as int;
        if x < entries.len() && entries[x].kind is File {
            rest.push(child_path(dir, entries[x].name@))
        } else {
            rest
        }
    }
}

/// Once the scan of a subdirectory has failed, taking more entries into
/// account gives the same failure.
proof fn lemma_failure_stays(
    dir: Seq<char>,
    entries: Seq<DirEntry>,
    order: Seq<usize>,
    m: nat,
    n: nat,
    include_hidden: bool,
)
    requires
        m <= n <= order.len(),
        scan_subdirs(dir, entries, order, m, include_hidden) is Err,
    ensures
        scan_subdirs(dir, entries, order, n, include_hidden) == scan_subdirs(
            dir,
            entries,
            order,
            m,
            include_hidden,
        ),
    decreases n,
{
    if m < n {
        lemma_failure_stays(dir, entries, order, m, (n - 1) as nat, include_hidden);
    }
}

/// Whether `path` is that of a regular file below `dir` that the scanner
/// takes notice of: a listed file of the directory, or such a file below one
/// of its listed subdirectories.
pub open spec fn is_file_below(
    dir: Seq<char>,
    content: DirContent,
    include_hidden: bool,
    path: Seq<char>,
) -> bool
    decreases content,
{
    match content {
        DirContent::Unreadable(_) => false,
        DirContent::Entries(entries) => exists|i: int|
            0 <= i < entries@.len() && is_listed((#[trigger] entries@[i]).name@, include_hidden)
                && is_found_at(dir, entries@, i, include_hidden, path),
    }
}

/// Whether `path` is that of the `i`-th entry, a listed file, or of a file
/// below it, a listed directory.
pub open spec fn is_found_at(
    dir: Seq<char>,
    entries: Seq<DirEntry>,
    i: int,
    include_hidden: bool,
    path: Seq<char>,
) -> bool
    decreases entries,
{
    if 0 <= i < entries.len() && is_listed(entries[i].name@, include_hidden) {
        match entries[i].kind {
            EntryKind::File => path == child_path(dir, entries[i].name@),
            EntryKind::Directory(sub) => is_file_below(
                child_path(dir, entries[i].name@),
                sub,
                include_hidden,
                path,
            ),
            EntryKind::Other => false,
        }
    } else {
        false
    }
}

/// What a joined list holds is what one of its two parts holds.
proof fn lemma_joined_members(a: Seq<Seq<char>>, b: Seq<Seq<char>>, p: Seq<char>)
    ensures
        (a + b).contains(p) <==> a.contains(p) || b.contains(p),
{
    let all = a + b;
    if all.contains(p) {
        let t = choose|t: int| 0 <= t < all.len() && all[t] == p;
        if t < a.len() {
            assert(a[t] == p);
        } else {
            assert(b[t - a.len()] == p);
        }
    }
    if a.contains(p) {
        let t = choose|t: int| 0 <= t < a.len() && a[t] == p;
        assert(all[t] == p);
    }
    if b.contains(p) {
        let t = choose|t: int| 0 <= t < b.len() && b[t] == p;
        assert(all[a.len() + t] == p);
    }
}

proof fn lemma_subdirs_members(
    dir: Seq<char>,
    entries: Seq<DirEntry>,
    order: Seq<usize>,
    n: nat,
    include_hidden: bool,
)
    requires
        n <= order.len(),
        forall|k: int|
            0 <= k < order.len() ==> (#[trigger] order[k]) < entries.len() && is_listed(
                entries[order[k] as int].name@,
                include_hidden,
            ),
        scan_subdirs(dir, entries, order, n, include_hidden) is Ok,
    ensures
        forall|path: Seq<char>| #[trigger]
            scan_subdirs(dir, entries, order, n, include_hidden)->Ok_0.contains(path) <==> exists|k: int|
                0 <= k < n && entries[order[k] as int].kind is Directory && #[trigger] is_found_at(
                    dir,
                    entries,
                    order[k] as int,
                    include_hidden,
                    path,
                ),
    decreases entries, n,
{
    let all = scan_subdirs(dir, entries, order, n, include_hidden)->Ok_0;
    if n == 0 {
        assert forall|path: Seq<char>| #[trigger] all.contains(path) implies false by {}
    } else {
        lemma_subdirs_members(dir, entries, order, (n - 1) as nat, include_hidden);
        let found = scan_subdirs(dir, entries, order, (n - 1) as nat, include_hidden)->Ok_0;
        let x = order[n - 1] as int;
        match entries[x].kind {
            EntryKind::Directory(sub) => {
                let inner_dir = child_path(dir, entries[x].name@);
                lemma_scan_members(inner_dir, sub, include_hidden);
                let inner = scan(inner_dir, sub, include_hidden)->Ok_0;
                assert(all == found + inner);
                assert forall|path: Seq<char>| #[trigger]
                    all.contains(path) <==> exists|k: int|
                        0 <= k < n && entries[order[k] as int].kind is Directory
                            && #[trigger] is_found_at(
                            dir,
                            entries,
                            order[k] as int,
                            include_hidden,
                            path,
                        ) by {
                    lemma_joined_members(found, inner, path);
                    if inner.contains(path) {
                        assert(is_found_at(dir, entries, order[n - 1] as int, include_hidden, path));
                    }
                    if exists|k: int|
                        0 <= k < n && entries[order[k] as int].kind is Directory
                            && #[trigger] is_found_at(
                            dir,
                            entries,
                            order[k] as int,
                            include_hidden,
                            path,
                        ) {
                        let k = choose|k: int|
                            0 <= k < n && entries[order[k] as int].kind is Directory
                                && #[trigger] is_found_at(
                                dir,
                                entries,
                                order[k] as int,
                                include_hidden,
                                path,
                            );
                        if k < n - 1 {
                            assert(found.contains(path));
                        } else {
                            assert(inner.contains(path));
                        }
                    }
                }
            },
            _ => {
                assert(all == found);
            },
        }
    }
}

proof fn lemma_level_members(
    dir: Seq<char>,
    entries: Seq<DirEntry>,
    order: Seq<usize>,
    n: nat,
    include_hidden: bool,
)
    requires
        n <= order.len(),
        forall|k: int|
            0 <= k < order.len() ==> (#[trigger] order[k]) < entries.len() && is_listed(
                entries[order[k] as int].name@,
                include_hidden,
            ),
    ensures
        forall|path: Seq<char>| #[trigger]
            level_files(dir, entries, order, n).contains(path) <==> exists|k: int|
                0 <= k < n && entries[order[k] as int].kind is File && #[trigger] is_found_at(
                    dir,
                    entries,
                    order[k] as int,
                    include_hidden,
                    path,
                ),
    decreases n,
{
    let all = level_files(dir, entries, order, n);
    if n == 0 {
        assert forall|path: Seq<char>| #[trigger] all.contains(path) implies false by {}
    } else {
        lemma_level_members(dir, entries, order, (n - 1) as nat, include_hidden);
        let rest = level_files(dir, entries, order, (n - 1) as nat);
        let x = order[n - 1] as int;
        assert forall|path: Seq<char>| #[trigger]
            all.contains(path) <==> exists|k: int|
                0 <= k < n && entries[order[k] as int].kind is File && #[trigger] is_found_at(
                    dir,
                    entries,
                    order[k] as int,
                    include_hidden,
                    path,
                ) by {
            if all.contains(path) {
                let t = choose|t: int| 0 <= t < all.len() && all[t] == path;
                if t < rest.len() {
                    assert(rest[t] == path);
                    assert(rest.contains(path));
                } else {
                    assert(is_found_at(dir, entries, order[n - 1] as int, include_hidden, path));
                }
            }
            if exists|k: int|
                0 <= k < n && entries[order[k] as int].kind is File && #[trigger] is_found_at(
                    dir,
                    entries,
                    order[k] as int,
                    include_hidden,
                    path,
                ) {
                let k = choose|k: int|
                    0 <= k < n && entries[order[k] as int].kind is File && #[trigger] is_found_at(
                        dir,
                        entries,
                        order[k] as int,
                        include_hidden,
                        path,
                    );
                if k < n - 1 {
                    assert(rest.contains(path));
                    let t = choose|t: int| 0 <= t < rest.len() && rest[t] == path;
                    assert(all[t] == path);
                } else {
                    assert(all[rest.len() as int] == path);
                }
            }
        }
    }
}

/// A scan that succeeds lists exactly the regular files below the directory
/// that the scanner takes notice of: every listed file at every depth, no
/// directory, no entry of another kind, and nothing that is hidden unless
/// hidden entries are asked for.
pub proof fn lemma_scan_members(dir: Seq<char>, content: DirContent, include_hidden: bool)
    requires
        scan(dir, content, include_hidden) is Ok,
    ensures
        forall|path: Seq<char>| #[trigger]
            scan(dir, content, include_hidden)->Ok_0.contains(path) <==> is_file_below(
                dir,
                content,
                include_hidden,
                path,
            ),
    decreases content, 0nat,
{
    match content {
        DirContent::Unreadable(_) => {},
        DirContent::Entries(held) => {
            let entries = held@;
            assert(entries.len() == held.len());
            let order = listing_order(entries, include_hidden, entries.len());
            lemma_listing_order(entries, include_hidden, entries.len());
            lemma_order_holds_listed(entries, include_hidden);
            lemma_subdirs_members(dir, entries, order, order.len(), include_hidden);
            lemma_level_members(dir, entries, order, order.len(), include_hidden);
            let nested = scan_subdirs(dir, entries, order, order.len(), include_hidden)->Ok_0;
            let level = level_files(dir, entries, order, order.len());
            let all = scan(dir, content, include_hidden)->Ok_0;
            assert(all == nested + level);
            assert forall|path: Seq<char>| #[trigger]
                all.contains(path) <==> is_file_below(dir, content, include_hidden, path) by {
                lemma_joined_members(nested, level, path);
                if nested.contains(path) {
                    let k = choose|k: int|
                        0 <= k < order.len() && entries[order[k] as int].kind is Directory
                            && #[trigger] is_found_at(
                            dir,
                            entries,
                            order[k] as int,
                            include_hidden,
                            path,
                        );
                    assert(is_listed(entries[order[k] as int].name@, include_hidden));
                }
                if level.contains(path) {
                    let k = choose|k: int|
                        0 <= k < order.len() && entries[order[k] as int].kind is File
                            && #[trigger] is_found_at(
                            dir,
                            entries,
                            order[k] as int,
                            include_hidden,
                            path,
                        );
                    assert(is_listed(entries[order[k] as int].name@, include_hidden));
                }
                if is_file_below(dir, content, include_hidden, path) {
                    let i = choose|i: int|
                        0 <= i < entries.len() && is_listed(
                            (#[trigger] entries[i]).name@,
                            include_hidden,
                        ) && is_found_at(dir, entries, i, include_hidden, path);
                    assert(order.contains(i as usize));
                    let k = choose|k: int| 0 <= k < order.len() && order[k] == i as usize;
                    assert(is_found_at(dir, entries, order[k] as int, include_hidden, path));
                    assert(entries[i].kind is Directory || entries[i].kind is File);
                }
            }
        },
    }
}

/// Whether the scanner meets a directory that could not be read: the
/// directory itself, or one below a listed subdirectory.
pub open spec fn is_blocked(content: DirContent, include_hidden: bool) -> bool
    decreases content,
{
    match content {
        DirContent::Unreadable(_) => true,
        DirContent::Entries(entries) => exists|i: int|
            0 <= i < entries@.len() && is_listed((#[trigger] entries@[i]).name@, include_hidden)
                && is_blocked_at(entries@, i, include_hidden),
    }
}

/// Whether the `i`-th entry is a directory in which the scanner meets one
/// that could not be read.
pub open spec fn is_blocked_at(entries: Seq<DirEntry>, i: int, include_hidden: bool) -> bool
    decreases entries,
{
    if 0 <= i < entries.len() {
        match entries[i].kind {
            EntryKind::Directory(sub) => is_blocked(sub, include_hidden),
            _ => false,
        }
    } else {
        false
    }
}

proof fn lemma_subdirs_fail(
    dir: Seq<char>,
    entries: Seq<DirEntry>,
    order: Seq<usize>,
    n: nat,
    include_hidden: bool,
)
    requires
        n <= order.len(),
        forall|k: int| 0 <= k < order.len() ==> (#[trigger] order[k]) < entries.len(),
    ensures
        scan_subdirs(dir, entries, order, n, include_hidden) is Err <==> exists|k: int|
            0 <= k < n && is_blocked_at(entries, (#[trigger] order[k]) as int, include_hidden),
    decreases entries, n,
{
    if n > 0 {
        lemma_subdirs_fail(dir, entries, order, (n - 1) as nat, include_hidden);
        let x = order[n - 1] as int;
        match entries[x].kind {
            EntryKind::Directory(sub) => {
                lemma_scan_fails(child_path(dir, entries[x].name@), sub, include_hidden);
            },
            _ => {},
        }
        if scan_subdirs(dir, entries, order, n, include_hidden) is Err {
            if scan_subdirs(dir, entries, order, (n - 1) as nat, include_hidden) is Err {
                let k = choose|k: int|
                    0 <= k < n - 1 && is_blocked_at(entries, (#[trigger] order[k]) as int, include_hidden);
                assert(is_blocked_at(entries, order[k] as int, include_hidden));
            } else {
                assert(is_blocked_at(entries, order[n - 1] as int, include_hidden));
            }
        }
        if exists|k: int| 0 <= k < n && is_blocked_at(entries, (#[trigger] order[k]) as int, include_hidden) {
            let k = choose|k: int|
                0 <= k < n && is_blocked_at(entries, (#[trigger] order[k]) as int, include_hidden);
            if k < n - 1 {
                assert(scan_subdirs(dir, entries, order, (n - 1) as nat, include_hidden) is Err);
            }
        }
    }
}

/// A scan fails exactly when it meets a directory that could not be read:
/// the root, or a listed directory at any depth. Hidden directories count
/// only where hidden entries are scanned.
pub proof fn lemma_scan_fails(dir: Seq<char>, content: DirContent, include_hidden: bool)
    ensures
        scan(dir, content, include_hidden) is Err <==> is_blocked(content, include_hidden),
    decreases content, 0nat,
{
    match content {
        DirContent::Unreadable(_) => {},
        DirContent::Entries(held) => {
            let entries = held@;
            assert(entries.len() == held.len());
            let order = listing_order(entries, include_hidden, entries.len());
            lemma_listing_order(entries, include_hidden, entries.len());
            lemma_order_holds_listed(entries, include_hidden);
            lemma_subdirs_fail(dir, entries, order, order.len(), include_hidden);
            if scan(dir, content, include_hidden) is Err {
                let k = choose|k: int|
                    0 <= k < order.len() && is_blocked_at(
                        entries,
                        (#[trigger] order[k]) as int,
                        include_hidden,
                    );
                let i = order[k] as int;
                assert(is_listed(entries[i].name@, include_hidden) && is_blocked_at(
                    entries,
                    i,
                    include_hidden,
                ));
            }
            if is_blocked(content, include_hidden) {
                let i = choose|i: int|
                    0 <= i < entries.len() && is_listed((#[trigger] entries[i]).name@, include_hidden)
                        && is_blocked_at(entries, i, include_hidden);
                assert(order.contains(i as usize));
                let k = choose|k: int| 0 <= k < order.len() && order[k] == i as usize;
                assert(is_blocked_at(entries, order[k] as int, include_hidden));
            }
        },
    }
}

/// `path` starts with `dir` and a separator.
pub open spec fn is_under(dir: Seq<char>, path: Seq<char>) -> bool {
    &&& path.len() > dir.len()
    &&& forall|k: int| 0 <= k < dir.len() ==> path[k] == dir[k]
    &&& path[dir.len() as int] == '/'
}

/// The names that the scanner takes notice of are names as a file system
/// gives them: none holds a separator, and no two entries of one directory
/// have the same name.
pub open spec fn has_proper_names(content: DirContent, include_hidden: bool) -> bool
    decreases content,
{
    match content {
        DirContent::Unreadable(_) => true,
        DirContent::Entries(entries) => {
            &&& forall|i: int|
                0 <= i < entries@.len() && is_listed((#[trigger] entries@[i]).name@, include_hidden)
                    ==> is_proper_entry(entries@, i, include_hidden)
            &&& forall|i: int, j: int|
                0 <= i < j < entries@.len() && is_listed(
                    (#[trigger] entries@[i]).name@,
                    include_hidden,
                ) && is_listed((#[trigger] entries@[j]).name@, include_hidden) ==> entries@[i].name@
                    != entries@[j].name@
        },
    }
}

/// The name of the `i`-th entry holds no separator, and where the entry is a
/// directory, the names below it are proper.
pub open spec fn is_proper_entry(entries: Seq<DirEntry>, i: int, include_hidden: bool) -> bool
    decreases entries,
{
    if 0 <= i < entries.len() {
        &&& free_of(entries[i].name@, '/')
        &&& match entries[i].kind {
            EntryKind::Directory(sub) => has_proper_names(sub, include_hidden),
            _ => true,
        }
    } else {
        false
    }
}

proof fn lemma_child_is_under(dir: Seq<char>, name: Seq<char>)
    ensures
        is_under(dir, child_path(dir, name)),
        child_path(dir, name).len() == dir.len() + 1 + name.len(),
        forall|k: int| 0 <= k < name.len() ==> child_path(dir, name)[dir.len() + 1 + k] == name[k],
{
}

proof fn lemma_under_child(dir: Seq<char>, name: Seq<char>, path: Seq<char>)
    requires
        is_under(child_path(dir, name), path),
    ensures
        is_under(dir, path),
        path.len() > dir.len() + 1 + name.len(),
        forall|k: int| 0 <= k < name.len() ==> path[dir.len() + 1 + k] == name[k],
        path[(dir.len() + 1 + name.len()) as int] == '/',
{
    let child = child_path(dir, name);
    lemma_child_is_under(dir, name);
    assert forall|k: int| 0 <= k < dir.len() implies path[k] == dir[k] by {
        assert(path[k] == child[k]);
    }
    assert(path[dir.len() as int] == child[dir.len() as int]);
    assert forall|k: int| 0 <= k < name.len() implies path[dir.len() + 1 + k] == name[k] by {
        assert(path[dir.len() + 1 + k] == child[dir.len() + 1 + k]);
    }
}

/// What lies below two entries of one directory lies below entries of the
/// same name.
proof fn lemma_children_apart(dir: Seq<char>, a: Seq<char>, b: Seq<char>, path: Seq<char>)
    requires
        free_of(a, '/'),
        free_of(b, '/'),
        is_under(child_path(dir, a), path),
        is_under(child_path(dir, b), path),
    ensures
        a == b,
{
    lemma_under_child(dir, a, path);
    lemma_under_child(dir, b, path);
    if a.len() < b.len() {
        assert(path[(dir.len() + 1 + a.len()) as int] == b[a.len() as int]);
    } else if b.len() < a.len() {
        assert(path[(dir.len() + 1 + b.len()) as int] == a[b.len() as int]);
    } else {
        assert(a =~= b);
    }
}

/// An entry whose name holds no separator does not lie below another entry.
proof fn lemma_child_not_below(dir: Seq<char>, a: Seq<char>, b: Seq<char>)
    requires
        free_of(b, '/'),
    ensures
        !is_under(child_path(dir, a), child_path(dir, b)),
{
    if is_under(child_path(dir, a), child_path(dir, b)) {
        lemma_under_child(dir, a, child_path(dir, b));
        lemma_child_is_under(dir, b);
        assert(child_path(dir, b)[(dir.len() + 1 + a.len()) as int] == b[a.len() as int]);
    }
}

/// Two entries of one directory with the same path have the same name.
proof fn lemma_child_path_decides(dir: Seq<char>, a: Seq<char>, b: Seq<char>)
    requires
        child_path(dir, a) == child_path(dir, b),
    ensures
        a == b,
{
    lemma_child_is_under(dir, a);
    lemma_child_is_under(dir, b);
    assert(a.len() == b.len());
    assert forall|k: int| 0 <= k < a.len() implies a[k] == b[k] by {
        assert(child_path(dir, a)[dir.len() + 1 + k] == a[k]);
        assert(child_path(dir, b)[dir.len() + 1 + k] == b[k]);
    }
    assert(a =~= b);
}

/// Every file below a directory has a path that starts with the directory's.
proof fn lemma_below_is_under(dir: Seq<char>, content: DirContent, include_hidden: bool, path: Seq<char>)
    requires
        is_file_below(dir, content, include_hidden, path),
    ensures
        is_under(dir, path),
    decreases content,
{
    match content {
        DirContent::Unreadable(_) => {},
        DirContent::Entries(held) => {
            let entries = held@;
            let i = choose|i: int|
                0 <= i < entries.len() && is_listed((#[trigger] entries[i]).name@, include_hidden)
                    && is_found_at(dir, entries, i, include_hidden, path);
            let name = entries[i].name@;
            match entries[i].kind {
                EntryKind::File => {
                    lemma_child_is_under(dir, name);
                },
                EntryKind::Directory(sub) => {
                    lemma_below_is_under(child_path(dir, name), sub, include_hidden, path);
                    lemma_under_child(dir, name, path);
                },
                EntryKind::Other => {},
            }
        },
    }
}

/// Joining two lists without repetition that share nothing gives a list
/// without repetition.
proof fn lemma_joined_without_repetition(a: Seq<Seq<char>>, b: Seq<Seq<char>>)
    requires
        a.no_duplicates(),
        b.no_duplicates(),
        forall|p: Seq<char>| !(a.contains(p) && b.contains(p)),
    ensures
        (a + b).no_duplicates(),
{
    let all = a + b;
    assert forall|i: int, j: int| 0 <= i < all.len() && 0 <= j < all.len() && i != j implies all[i]
        != all[j] by {
        if i < a.len() && j >= a.len() {
            assert(a.contains(a[i]) && b.contains(b[j - a.len()]));
        } else if j < a.len() && i >= a.len() {
            assert(a.contains(a[j]) && b.contains(b[i - a.len()]));
        }
    }
}

/// The positions in a listing order are pairwise different.
proof fn lemma_order_positions_differ(entries: Seq<DirEntry>, include_hidden: bool, j: int, k: int)
    requires
        entries.len() <= usize::MAX,
        0 <= j < k < listing_order(entries, include_hidden, entries.len()).len(),
    ensures
        listing_order(entries, include_hidden, entries.len())[j] != listing_order(
            entries,
            include_hidden,
            entries.len(),
        )[k],
{
    lemma_listing_order(entries, include_hidden, entries.len());
    let order = listing_order(entries, include_hidden, entries.len());
    let a = entries[order[j] as int].name@;
    let b = entries[order[k] as int].name@;
    if order[j] == order[k] {
        assert(lex_lt(a, b) || (a == b && order[j] < order[k]));
        lemma_lex_irreflexive(a);
    }
}

proof fn lemma_subdirs_without_repetition(
    dir: Seq<char>,
    held: Vec<DirEntry>,
    n: nat,
    include_hidden: bool,
)
    requires
        has_proper_names(DirContent::Entries(held), include_hidden),
        n <= listing_order(held@, include_hidden, held@.len()).len(),
        scan_subdirs(
            dir,
            held@,
            listing_order(held@, include_hidden, held@.len()),
            n,
            include_hidden,
        ) is Ok,
    ensures
        scan_subdirs(
            dir,
            held@,
            listing_order(held@, include_hidden, held@.len()),
            n,
            include_hidden,
        )->Ok_0.no_duplicates(),
    decreases held@, n,
{
    let entries = held@;
    assert(entries.len() == held.len());
    let order = listing_order(entries, include_hidden, entries.len());
    lemma_listing_order(entries, include_hidden, entries.len());
    lemma_order_holds_listed(entries, include_hidden);
    if n > 0 {
        lemma_subdirs_without_repetition(dir, held, (n - 1) as nat, include_hidden);
        let found = scan_subdirs(dir, entries, order, (n - 1) as nat, include_hidden)->Ok_0;
        let x = order[n - 1] as int;
        let name = entries[x].name@;
        assert(is_proper_entry(entries, x, include_hidden));
        match entries[x].kind {
            EntryKind::Directory(sub) => {
                let inner_dir = child_path(dir, name);
                lemma_scan_without_repetition(inner_dir, sub, include_hidden);
                lemma_scan_members(inner_dir, sub, include_hidden);
                lemma_subdirs_members(dir, entries, order, (n - 1) as nat, include_hidden);
                let inner = scan(inner_dir, sub, include_hidden)->Ok_0;
                assert forall|p: Seq<char>| !(found.contains(p) && inner.contains(p)) by {
                    if found.contains(p) && inner.contains(p) {
                        lemma_below_is_under(inner_dir, sub, include_hidden, p);
                        let k = choose|k: int|
                            0 <= k < n - 1 && entries[order[k] as int].kind is Directory
                                && #[trigger] is_found_at(
                                dir,
                                entries,
                                order[k] as int,
                                include_hidden,
                                p,
                            );
                        let y = order[k] as int;
                        lemma_order_positions_differ(entries, include_hidden, k, n - 1);
                        assert(is_proper_entry(entries, y, include_hidden));
                        assert(entries[y].name@ != name) by {
                            if y < x {
                                assert(entries[y].name@ != entries[x].name@);
                            } else {
                                assert(entries[x].name@ != entries[y].name@);
                            }
                        }
                        match entries[y].kind {
                            EntryKind::Directory(other) => {
                                lemma_below_is_under(
                                    child_path(dir, entries[y].name@),
                                    other,
                                    include_hidden,
                                    p,
                                );
                            },
                            _ => {},
                        }
                        lemma_children_apart(dir, entries[y].name@, name, p);
                    }
                }
                lemma_joined_without_repetition(found, inner);
            },
            _ => {},
        }
    }
}

proof fn lemma_level_without_repetition(dir: Seq<char>, held: Vec<DirEntry>, n: nat, include_hidden: bool)
    requires
        has_proper_names(DirContent::Entries(held), include_hidden),
        n <= listing_order(held@, include_hidden, held@.len()).len(),
    ensures
        level_files(dir, held@, listing_order(held@, include_hidden, held@.len()), n).no_duplicates(),
    decreases n,
{
    let entries = held@;
    assert(entries.len() == held.len());
    let order = listing_order(entries, include_hidden, entries.len());
    lemma_listing_order(entries, include_hidden, entries.len());
    lemma_order_holds_listed(entries, include_hidden);
    if n > 0 {
        lemma_level_without_repetition(dir, held, (n - 1) as nat, include_hidden);
        lemma_level_members(dir, entries, order, (n - 1) as nat, include_hidden);
        let rest = level_files(dir, entries, order, (n - 1) as nat);
        let x = order[n - 1] as int;
        if entries[x].kind is File {
            let path = child_path(dir, entries[x].name@);
            if rest.contains(path) {
                let k = choose|k: int|
                    0 <= k < n - 1 && entries[order[k] as int].kind is File && #[trigger] is_found_at(
                        dir,
                        entries,
                        order[k] as int,
                        include_hidden,
                        path,
                    );
                let y = order[k] as int;
                lemma_order_positions_differ(entries, include_hidden, k, n - 1);
                lemma_child_path_decides(dir, entries[y].name@, entries[x].name@);
                if y < x {
                    assert(entries[y].name@ != entries[x].name@);
                } else {
                    assert(entries[x].name@ != entries[y].name@);
                }
            }
            assert(rest.push(path).no_duplicates()) by {
                let all = rest.push(path);
                assert forall|i: int, j: int|
                    0 <= i < all.len() && 0 <= j < all.len() && i != j implies all[i] != all[j] by {
                    if i == rest.len() {
                        assert(rest.contains(rest[j]) || true);
                        if rest[j] == path {
                            assert(rest.contains(path));
                        }
                    } else if j == rest.len() {
                        if rest[i] == path {
                            assert(rest.contains(path));
                        }
                    }
                }
            }
        }
    }
}

/// With proper names, a scan that succeeds lists no path twice.
pub proof fn lemma_scan_without_repetition(dir: Seq<char>, content: DirContent, include_hidden: bool)
    requires
        has_proper_names(content, include_hidden),
        scan(dir, content, include_hidden) is Ok,
    ensures
        scan(dir, content, include_hidden)->Ok_0.no_duplicates(),
    decreases content, 0nat,
{
    match content {
        DirContent::Unreadable(_) => {},
        DirContent::Entries(held) => {
            let entries = held@;
            assert(entries.len() == held.len());
            let order = listing_order(entries, include_hidden, entries.len());
            lemma_listing_order(entries, include_hidden, entries.len());
            lemma_order_holds_listed(entries, include_hidden);
            lemma_subdirs_without_repetition(dir, held, order.len(), include_hidden);
            lemma_level_without_repetition(dir, held, order.len(), include_hidden);
            lemma_subdirs_members(dir, entries, order, order.len(), include_hidden);
            lemma_level_members(dir, entries, order, order.len(), include_hidden);
            let nested = scan_subdirs(dir, entries, order, order.len(), include_hidden)->Ok_0;
            let level = level_files(dir, entries, order, order.len());
            assert forall|p: Seq<char>| !(nested.contains(p) && level.contains(p)) by {
                if nested.contains(p) && level.contains(p) {
                    let k = choose|k: int|
                        0 <= k < order.len() && entries[order[k] as int].kind is Directory
                            && #[trigger] is_found_at(
                            dir,
                            entries,
                            order[k] as int,
                            include_hidden,
                            p,
                        );
                    let j = choose|j: int|
                        0 <= j < order.len() && entries[order[j] as int].kind is File
                            && #[trigger] is_found_at(
                            dir,
                            entries,
                            order[j] as int,
                            include_hidden,
                            p,
                        );
                    let y = order[k] as int;
                    let x = order[j] as int;
                    assert(is_proper_entry(entries, x, include_hidden));
                    match entries[y].kind {
                        EntryKind::Directory(sub) => {
                            lemma_below_is_under(
                                child_path(dir, entries[y].name@),
                                sub,
                                include_hidden,
                                p,
                            );
                        },
                        _ => {},
                    }
                    lemma_child_not_below(dir, entries[y].name@, entries[x].name@);
                }
            }
            lemma_joined_without_repetition(nested, level);
        },
    }
}

/// The entries in the order in which the scanner visits them.
pub open spec fn visited(entries: Seq<DirEntry>, order: Seq<usize>) -> Seq<DirEntry> {
    Seq::new(order.len(), |k: int| entries[order[k] as int])
}

/// No two listed entries have the same name.
pub open spec fn has_distinct_names(entries: Seq<DirEntry>, include_hidden: bool) -> bool {
    forall|i: int, j: int|
        0 <= i < j < entries.len() && is_listed((#[trigger] entries[i]).name@, include_hidden)
            && is_listed((#[trigger] entries[j]).name@, include_hidden) ==> entries[i].name@
            != entries[j].name@
}

/// The two listings hold the same listed entries, in whatever order.
pub open spec fn has_same_entries(a: Seq<DirEntry>, b: Seq<DirEntry>, include_hidden: bool) -> bool {
    forall|e: DirEntry|
        (a.contains(e) && is_listed(e.name@, include_hidden)) <==> (b.contains(e) && is_listed(
            e.name@,
            include_hidden,
        ))
}

/// What a scan finds depends on the entries visited and on their order, not
/// on where they stand in the listing.
proof fn lemma_scan_follows_visit(
    dir: Seq<char>,
    a: Seq<DirEntry>,
    order_a: Seq<usize>,
    b: Seq<DirEntry>,
    order_b: Seq<usize>,
    n: nat,
    include_hidden: bool,
)
    requires
        visited(a, order_a) == visited(b, order_b),
        forall|k: int| 0 <= k < order_a.len() ==> (#[trigger] order_a[k]) < a.len(),
        forall|k: int| 0 <= k < order_b.len() ==> (#[trigger] order_b[k]) < b.len(),
        n <= order_a.len(),
    ensures
        scan_subdirs(dir, a, order_a, n, include_hidden) == scan_subdirs(
            dir,
            b,
            order_b,
            n,
            include_hidden,
        ),
        level_files(dir, a, order_a, n) == level_files(dir, b, order_b, n),
    decreases n,
{
    assert(order_a.len() == visited(a, order_a).len());
    assert(order_b.len() == visited(b, order_b).len());
    if n > 0 {
        lemma_scan_follows_visit(dir, a, order_a, b, order_b, (n - 1) as nat, include_hidden);
        assert(visited(a, order_a)[n - 1] == a[order_a[n - 1] as int]);
        assert(visited(b, order_b)[n - 1] == b[order_b[n - 1] as int]);
    }
}

proof fn lemma_visit_is_ascending(entries: Seq<DirEntry>, include_hidden: bool)
    requires
        entries.len() <= usize::MAX,
        has_distinct_names(entries, include_hidden),
    ensures
        strictly_ascending(
            visited(entries, listing_order(entries, include_hidden, entries.len())),
            |e: DirEntry| e.name@,
        ),
        forall|e: DirEntry|
            visited(entries, listing_order(entries, include_hidden, entries.len())).contains(e) <==> (
            entries.contains(e) && is_listed(e.name@, include_hidden)),
{
    let order = listing_order(entries, include_hidden, entries.len());
    let seen = visited(entries, order);
    let key = |e: DirEntry| e.name@;
    lemma_listing_order(entries, include_hidden, entries.len());
    lemma_order_holds_listed(entries, include_hidden);
    assert forall|j: int, k: int| 0 <= j < k < seen.len() implies lex_lt(
        key(#[trigger] seen[j]),
        key(#[trigger] seen[k]),
    ) by {
        lemma_order_positions_differ(entries, include_hidden, j, k);
        let x = order[j] as int;
        let y = order[k] as int;
        assert(lex_lt(entries[x].name@, entries[y].name@) || (entries[x].name@ == entries[y].name@
            && order[j] < order[k]));
        if x < y {
            assert(entries[x].name@ != entries[y].name@);
        } else {
            assert(entries[y].name@ != entries[x].name@);
        }
    }
    assert forall|e: DirEntry|
        seen.contains(e) <==> (entries.contains(e) && is_listed(e.name@, include_hidden)) by {
        if seen.contains(e) {
            let k = choose|k: int| 0 <= k < seen.len() && seen[k] == e;
            assert(entries[order[k] as int] == e);
        }
        if entries.contains(e) && is_listed(e.name@, include_hidden) {
            let i = choose|i: int| 0 <= i < entries.len() && entries[i] == e;
            assert(order.contains(i as usize));
            let k = choose|k: int| 0 <= k < order.len() && order[k] == i as usize;
            assert(seen[k] == e);
        }
    }
}

/// The order in which a directory's entries are listed does not matter: two
/// listings of the same entries, each name given once, scan alike.
pub proof fn lemma_scan_ignores_listing_order(
    dir: Seq<char>,
    a: Vec<DirEntry>,
    b: Vec<DirEntry>,
    include_hidden: bool,
)
    requires
        has_distinct_names(a@, include_hidden),
        has_distinct_names(b@, include_hidden),
        has_same_entries(a@, b@, include_hidden),
    ensures
        scan(dir, DirContent::Entries(a), include_hidden) == scan(
            dir,
            DirContent::Entries(b),
            include_hidden,
        ),
{
    assert(a@.len() == a.len() && b@.len() == b.len());
    let order_a = listing_order(a@, include_hidden, a@.len());
    let order_b = listing_order(b@, include_hidden, b@.len());
    let key = |e: DirEntry| e.name@;
    lemma_visit_is_ascending(a@, include_hidden);
    lemma_visit_is_ascending(b@, include_hidden);
    let seen_a = visited(a@, order_a);
    let seen_b = visited(b@, order_b);
    assert forall|e: DirEntry| seen_a.contains(e) <==> seen_b.contains(e) by {
        assert(seen_a.contains(e) <==> (a@.contains(e) && is_listed(e.name@, include_hidden)));
        assert(seen_b.contains(e) <==> (b@.contains(e) && is_listed(e.name@, include_hidden)));
        assert((a@.contains(e) && is_listed(e.name@, include_hidden)) <==> (b@.contains(e)
            && is_listed(e.name@, include_hidden)));
    }
    lemma_ascending_is_canonical(seen_a, seen_b, key);
    lemma_listing_order(a@, include_hidden, a@.len());
    lemma_listing_order(b@, include_hidden, b@.len());
    assert(order_a.len() == seen_a.len() && order_b.len() == seen_b.len());
    lemma_scan_follows_visit(dir, a@, order_a, b@, order_b, order_a.len(), include_hidden);
}

/// The two directories differ at most in what the scanner passes over: the
/// entries have the same names in the same order, and those that are listed
/// are of the same kind, the listed directories being alike in turn.
pub open spec fn is_alike(a: DirContent, b: DirContent, include_hidden: bool) -> bool
    decreases a,
{
    match (a, b) {
        (DirContent::Unreadable(x), DirContent::Unreadable(y)) => x@ == y@,
        (DirContent::Entries(x), DirContent::Entries(y)) => {
            &&& x@.len() == y@.len()
            &&& forall|i: int|
                0 <= i < x@.len() ==> (#[trigger] x@[i]).name@ == y@[i].name@ && is_alike_at(
                    x@,
                    y@,
                    i,
                    include_hidden,
                )
        },
        _ => false,
    }
}

/// The `i`-th entries are of the same kind where they are listed, and alike
/// where they are directories.
pub open spec fn is_alike_at(a: Seq<DirEntry>, b: Seq<DirEntry>, i: int, include_hidden: bool) -> bool
    decreases a,
{
    if 0 <= i < a.len() && i < b.len() {
        is_listed(a[i].name@, include_hidden) ==> match (a[i].kind, b[i].kind) {
            (EntryKind::File, EntryKind::File) => true,
            (EntryKind::Other, EntryKind::Other) => true,
            (EntryKind::Directory(x), EntryKind::Directory(y)) => is_alike(x, y, include_hidden),
            _ => false,
        }
    } else {
        false
    }
}

proof fn lemma_same_names_same_place(a: Seq<DirEntry>, b: Seq<DirEntry>, prev: Seq<usize>, name: Seq<char>)
    requires
        a.len() == b.len(),
        forall|i: int| 0 <= i < a.len() ==> (#[trigger] a[i]).name@ == b[i].name@,
        forall|k: int| 0 <= k < prev.len() ==> (#[trigger] prev[k]) < a.len(),
    ensures
        place(a, prev, name) == place(b, prev, name),
    decreases prev.len(),
{
    if prev.len() > 0 {
        assert(a[prev.last() as int].name@ == b[prev.last() as int].name@);
        assert forall|k: int| 0 <= k < prev.drop_last().len() implies (#[trigger] prev.drop_last()[k])
            < a.len() by {
            assert(prev.drop_last()[k] == prev[k]);
        }
        lemma_same_names_same_place(a, b, prev.drop_last(), name);
    }
}

proof fn lemma_same_names_same_order(a: Seq<DirEntry>, b: Seq<DirEntry>, include_hidden: bool, n: nat)
    requires
        a.len() == b.len(),
        a.len() <= usize::MAX,
        n <= a.len(),
        forall|i: int| 0 <= i < a.len() ==> (#[trigger] a[i]).name@ == b[i].name@,
    ensures
        listing_order(a, include_hidden, n) == listing_order(b, include_hidden, n),
    decreases n,
{
    if n > 0 {
        lemma_same_names_same_order(a, b, include_hidden, (n - 1) as nat);
        lemma_listing_order(a, include_hidden, (n - 1) as nat);
        let prev = listing_order(a, include_hidden, (n - 1) as nat);
        assert(a[n - 1].name@ == b[n - 1].name@);
        lemma_same_names_same_place(a, b, prev, a[n - 1].name@);
    }
}

proof fn lemma_alike_subdirs(
    dir: Seq<char>,
    a: Seq<DirEntry>,
    b: Seq<DirEntry>,
    order: Seq<usize>,
    n: nat,
    include_hidden: bool,
)
    requires
        a.len() == b.len(),
        n <= order.len(),
        forall|i: int|
            0 <= i < a.len() ==> (#[trigger] a[i]).name@ == b[i].name@ && is_alike_at(
                a,
                b,
                i,
                include_hidden,
            ),
        forall|k: int|
            0 <= k < order.len() ==> (#[trigger] order[k]) < a.len() && is_listed(
                a[order[k] as int].name@,
                include_hidden,
            ),
    ensures
        scan_subdirs(dir, a, order, n, include_hidden) == scan_subdirs(dir, b, order, n, include_hidden),
        level_files(dir, a, order, n) == level_files(dir, b, order, n),
    decreases a, n,
{
    if n > 0 {
        lemma_alike_subdirs(dir, a, b, order, (n - 1) as nat, include_hidden);
        let x = order[n - 1] as int;
        assert(a[x].name@ == b[x].name@ && is_alike_at(a, b, x, include_hidden));
        match (a[x].kind, b[x].kind) {
            (EntryKind::Directory(sub_a), EntryKind::Directory(sub_b)) => {
                lemma_alike_scans(child_path(dir, a[x].name@), sub_a, sub_b, include_hidden);
            },
            _ => {},
        }
    }
}

/// What the scanner passes over does not matter: two directories that are
/// alike in what it takes notice of scan alike. In particular a hidden
/// directory need not be read where hidden entries are not scanned.
pub proof fn lemma_alike_scans(dir: Seq<char>, a: DirContent, b: DirContent, include_hidden: bool)
    requires
        is_alike(a, b, include_hidden),
    ensures
        scan(dir, a, include_hidden) == scan(dir, b, include_hidden),
    decreases a, 0nat,
{
    match (a, b) {
        (DirContent::Entries(x), DirContent::Entries(y)) => {
            assert(x@.len() == x.len() && y@.len() == y.len());
            lemma_same_names_same_order(x@, y@, include_hidden, x@.len());
            lemma_order_holds_listed(x@, include_hidden);
            let order = listing_order(x@, include_hidden, x@.len());
            lemma_alike_subdirs(dir, x@, y@, order, order.len(), include_hidden);
        },
        _ => {},
    }
}

/// The two directories hold the same tree, listed in whatever order: in
/// each, no two listed entries have the same name; every listed entry of the
/// one has an entry of the same name and kind in the other; and directories
/// of the same name hold the same tree in turn.
pub open spec fn is_same_tree(a: DirContent, b: DirContent, include_hidden: bool) -> bool
    decreases a,
{
    match (a, b) {
        (DirContent::Unreadable(x), DirContent::Unreadable(y)) => x@ == y@,
        (DirContent::Entries(x), DirContent::Entries(y)) => {
            &&& has_distinct_names(x@, include_hidden)
            &&& has_distinct_names(y@, include_hidden)
            &&& forall|i: int|
                0 <= i < x@.len() && is_listed((#[trigger] x@[i]).name@, include_hidden)
                    ==> has_partner(x@, i, y@, include_hidden)
            &&& forall|j: int|
                0 <= j < y@.len() && is_listed((#[trigger] y@[j]).name@, include_hidden)
                    ==> has_name(x@, y@[j].name@)
        },
        _ => false,
    }
}

/// Some entry has the name `name`.
pub open spec fn has_name(entries: Seq<DirEntry>, name: Seq<char>) -> bool {
    exists|i: int| 0 <= i < entries.len() && (#[trigger] entries[i]).name@ == name
}

/// Some entry of `b` is the partner of the `i`-th entry of `a`.
pub open spec fn has_partner(a: Seq<DirEntry>, i: int, b: Seq<DirEntry>, include_hidden: bool) -> bool
    decreases a, 1nat,
{
    exists|j: int|
        0 <= j < b.len() && (#[trigger] b[j]).name@ == a[i].name@ && is_partner(
            a,
            i,
            b,
            j,
            include_hidden,
        )
}

/// The `j`-th entry of `b` has the name and the kind of the `i`-th entry of
/// `a`, and where they are directories they hold the same tree.
pub open spec fn is_partner(a: Seq<DirEntry>, i: int, b: Seq<DirEntry>, j: int, include_hidden: bool) -> bool
    decreases a, 0nat,
{
    if 0 <= i < a.len() && 0 <= j < b.len() {
        &&& a[i].name@ == b[j].name@
        &&& match (a[i].kind, b[j].kind) {
            (EntryKind::File, EntryKind::File) => true,
            (EntryKind::Other, EntryKind::Other) => true,
            (EntryKind::Directory(x), EntryKind::Directory(y)) => is_same_tree(x, y, include_hidden),
            _ => false,
        }
    } else {
        false
    }
}

/// The names of the entries in the order in which the scanner visits them.
pub open spec fn visited_names(entries: Seq<DirEntry>, order: Seq<usize>) -> Seq<Seq<char>> {
    Seq::new(order.len(), |k: int| entries[order[k] as int].name@)
}

proof fn lemma_visited_names_ascend(
    entries: Seq<DirEntry>,
    include_hidden: bool,
    key: spec_fn(Seq<char>) -> Seq<char>,
)
    requires
        entries.len() <= usize::MAX,
        has_distinct_names(entries, include_hidden),
        forall|name: Seq<char>| #[trigger] key(name) == name,
    ensures
        strictly_ascending(
            visited_names(entries, listing_order(entries, include_hidden, entries.len())),
            key,
        ),
        forall|name: Seq<char>|
            visited_names(entries, listing_order(entries, include_hidden, entries.len())).contains(
                name,
            ) <==> (has_name(entries, name) && is_listed(name, include_hidden)),
{
    let order = listing_order(entries, include_hidden, entries.len());
    let names = visited_names(entries, order);
    lemma_listing_order(entries, include_hidden, entries.len());
    lemma_order_holds_listed(entries, include_hidden);
    assert forall|j: int, k: int| 0 <= j < k < names.len() implies lex_lt(
        key(#[trigger] names[j]),
        key(#[trigger] names[k]),
    ) by {
        lemma_order_positions_differ(entries, include_hidden, j, k);
        let x = order[j] as int;
        let y = order[k] as int;
        assert(lex_lt(entries[x].name@, entries[y].name@) || (entries[x].name@ == entries[y].name@
            && order[j] < order[k]));
        if x < y {
            assert(entries[x].name@ != entries[y].name@);
        } else {
            assert(entries[y].name@ != entries[x].name@);
        }
    }
    assert forall|name: Seq<char>|
        names.contains(name) <==> (has_name(entries, name) && is_listed(name, include_hidden)) by {
        if names.contains(name) {
            let k = choose|k: int| 0 <= k < names.len() && names[k] == name;
            assert(entries[order[k] as int].name@ == name);
        }
        if has_name(entries, name) && is_listed(name, include_hidden) {
            let i = choose|i: int| 0 <= i < entries.len() && (#[trigger] entries[i]).name@ == name;
            assert(order.contains(i as usize));
            let k = choose|k: int| 0 <= k < order.len() && order[k] == i as usize;
            assert(names[k] == name);
        }
    }
}

proof fn lemma_partners_scan_alike(
    dir: Seq<char>,
    a: Seq<DirEntry>,
    order_a: Seq<usize>,
    b: Seq<DirEntry>,
    order_b: Seq<usize>,
    n: nat,
    include_hidden: bool,
)
    requires
        order_a.len() == order_b.len(),
        n <= order_a.len(),
        forall|k: int| 0 <= k < order_a.len() ==> (#[trigger] order_a[k]) < a.len(),
        forall|k: int| 0 <= k < order_b.len() ==> (#[trigger] order_b[k]) < b.len(),
        forall|k: int|
            0 <= k < order_a.len() ==> is_partner(
                a,
                (#[trigger] order_a[k]) as int,
                b,
                order_b[k] as int,
                include_hidden,
            ),
    ensures
        scan_subdirs(dir, a, order_a, n, include_hidden) == scan_subdirs(
            dir,
            b,
            order_b,
            n,
            include_hidden,
        ),
        level_files(dir, a, order_a, n) == level_files(dir, b, order_b, n),
    decreases a, n,
{
    if n > 0 {
        lemma_partners_scan_alike(dir, a, order_a, b, order_b, (n - 1) as nat, include_hidden);
        let x = order_a[n - 1] as int;
        let y = order_b[n - 1] as int;
        assert(is_partner(a, x, b, y, include_hidden));
        match (a[x].kind, b[y].kind) {
            (EntryKind::Directory(sub_a), EntryKind::Directory(sub_b)) => {
                lemma_same_tree_scans_alike(child_path(dir, a[x].name@), sub_a, sub_b, include_hidden);
            },
            _ => {},
        }
    }
}

/// The order in which the file system lists the entries does not matter, at
/// any depth: two listings of the same tree scan alike. A scan of a tree
/// that has not changed gives the same paths in the same order, however the
/// entries of its directories were listed.
pub proof fn lemma_same_tree_scans_alike(dir: Seq<char>, a: DirContent, b: DirContent, include_hidden: bool)
    requires
        is_same_tree(a, b, include_hidden),
    ensures
        scan(dir, a, include_hidden) == scan(dir, b, include_hidden),
    decreases a, 0nat,
{
    match (a, b) {
        (DirContent::Entries(x), DirContent::Entries(y)) => {
            assert(x@.len() == x.len() && y@.len() == y.len());
            let order_a = listing_order(x@, include_hidden, x@.len());
            let order_b = listing_order(y@, include_hidden, y@.len());
            let names_a = visited_names(x@, order_a);
            let names_b = visited_names(y@, order_b);
            let key = |name: Seq<char>| name;
            lemma_visited_names_ascend(x@, include_hidden, key);
            lemma_visited_names_ascend(y@, include_hidden, key);
            lemma_order_holds_listed(x@, include_hidden);
            lemma_order_holds_listed(y@, include_hidden);
            assert forall|name: Seq<char>| names_a.contains(name) <==> names_b.contains(name) by {
                assert(names_a.contains(name) <==> (has_name(x@, name) && is_listed(
                    name,
                    include_hidden,
                )));
                assert(names_b.contains(name) <==> (has_name(y@, name) && is_listed(
                    name,
                    include_hidden,
                )));
                if has_name(x@, name) && is_listed(name, include_hidden) {
                    let i = choose|i: int| 0 <= i < x@.len() && (#[trigger] x@[i]).name@ == name;
                    assert(has_partner(x@, i, y@, include_hidden));
                    let j = choose|j: int|
                        0 <= j < y@.len() && (#[trigger] y@[j]).name@ == x@[i].name@ && is_partner(
                            x@,
                            i,
                            y@,
                            j,
                            include_hidden,
                        );
                    assert(has_name(y@, name));
                }
                if has_name(y@, name) && is_listed(name, include_hidden) {
                    let j = choose|j: int| 0 <= j < y@.len() && (#[trigger] y@[j]).name@ == name;
                    assert(has_name(x@, y@[j].name@));
                }
            }
            lemma_ascending_is_canonical(names_a, names_b, key);
            assert(order_a.len() == names_a.len() && order_b.len() == names_b.len());
            assert forall|k: int| 0 <= k < order_a.len() implies is_partner(
                x@,
                (#[trigger] order_a[k]) as int,
                y@,
                order_b[k] as int,
                include_hidden,
            ) by {
                let i = order_a[k] as int;
                let t = order_b[k] as int;
                assert(names_a[k] == x@[i].name@);
                assert(names_b[k] == y@[t].name@);
                assert(is_listed(x@[i].name@, include_hidden));
                assert(has_partner(x@, i, y@, include_hidden));
                let j = choose|j: int|
                    0 <= j < y@.len() && (#[trigger] y@[j]).name@ == x@[i].name@ && is_partner(
                        x@,
                        i,
                        y@,
                        j,
                        include_hidden,
                    );
                if j < t {
                    assert(y@[j].name@ != y@[t].name@);
                } else if t < j {
                    assert(y@[t].name@ != y@[j].name@);
                }
            }
            lemma_partners_scan_alike(dir, x@, order_a, y@, order_b, order_a.len(), include_hidden);
        },
        _ => {},
    }
}

/// A tree with proper names is the same tree as itself.
pub proof fn lemma_tree_is_itself(a: DirContent, include_hidden: bool)
    requires
        has_proper_names(a, include_hidden),
    ensures
        is_same_tree(a, a, include_hidden),
    decreases a,
{
    match a {
        DirContent::Unreadable(_) => {},
        DirContent::Entries(x) => {
            assert forall|i: int|
                0 <= i < x@.len() && is_listed((#[trigger] x@[i]).name@, include_hidden) implies has_partner(
                x@,
                i,
                x@,
                include_hidden,
            ) by {
                assert(is_proper_entry(x@, i, include_hidden));
                match x@[i].kind {
                    EntryKind::Directory(sub) => {
                        lemma_tree_is_itself(sub, include_hidden);
                    },
                    _ => {},
                }
                assert(is_partner(x@, i, x@, i, include_hidden));
            }
        },
    }
}

/// The directory of a path: what stands before its last separator.
pub open spec fn dir_part(path: Seq<char>) -> Seq<char> {
    let start = component_start(path, path.len() as int);
    if start > 0 {
        path.take(start - 1)
    } else {
        Seq::empty()
    }
}

/// The name of a path: what stands behind its last separator.
pub open spec fn name_part(path: Seq<char>) -> Seq<char> {
    path.skip(component_start(path, path.len() as int))
}

/// The files of one directory stand together, in ascending order of name:
/// two paths of the same directory have their names in ascending order, and
/// whatever stands between them is of that directory too.
pub open spec fn is_in_order(paths: Seq<Seq<char>>) -> bool {
    forall|i: int, j: int|
        0 <= i < j < paths.len() && dir_part(#[trigger] paths[i]) == dir_part(#[trigger] paths[j])
            ==> lex_lt(name_part(paths[i]), name_part(paths[j])) && is_one_directory(paths, i, j)
}

/// The paths from the `i`-th to the `j`-th are of one directory.
pub open spec fn is_one_directory(paths: Seq<Seq<char>>, i: int, j: int) -> bool {
    forall|m: int| i < m < j ==> dir_part(#[trigger] paths[m]) == dir_part(paths[i])
}

/// `path` is the directory `dir` or lies below it.
pub open spec fn is_at_or_below(dir: Seq<char>, path: Seq<char>) -> bool {
    path == dir || is_under(dir, path)
}

proof fn lemma_component_of_child(dir: Seq<char>, name: Seq<char>, end: int)
    requires
        free_of(name, '/'),
        dir.len() + 1 <= end <= dir.len() + 1 + name.len(),
    ensures
        component_start(child_path(dir, name), end) == dir.len() + 1,
    decreases end,
{
    lemma_child_is_under(dir, name);
    let path = child_path(dir, name);
    if end > dir.len() + 1 {
        assert(path[end - 1] == name[end - 1 - (dir.len() + 1)]);
        lemma_component_of_child(dir, name, end - 1);
    } else {
        assert(path[end - 1] == '/');
    }
}

/// An entry whose name holds no separator has the directory as the
/// directory of its path, and its name as the name.
proof fn lemma_parts_of_child(dir: Seq<char>, name: Seq<char>)
    requires
        free_of(name, '/'),
    ensures
        dir_part(child_path(dir, name)) == dir,
        name_part(child_path(dir, name)) == name,
{
    lemma_child_is_under(dir, name);
    lemma_component_of_child(dir, name, (dir.len() + 1 + name.len()) as int);
    let path = child_path(dir, name);
    assert(path.take(dir.len() as int) =~= dir);
    assert(path.skip((dir.len() + 1) as int) =~= name);
}

/// With proper names, the directory of every file below a directory is that
/// directory or lies below it.
proof fn lemma_dir_part_is_below(dir: Seq<char>, content: DirContent, include_hidden: bool, path: Seq<char>)
    requires
        has_proper_names(content, include_hidden),
        is_file_below(dir, content, include_hidden, path),
    ensures
        is_at_or_below(dir, dir_part(path)),
    decreases content,
{
    match content {
        DirContent::Unreadable(_) => {},
        DirContent::Entries(held) => {
            let entries = held@;
            let i = choose|i: int|
                0 <= i < entries.len() && is_listed((#[trigger] entries[i]).name@, include_hidden)
                    && is_found_at(dir, entries, i, include_hidden, path);
            let name = entries[i].name@;
            assert(is_proper_entry(entries, i, include_hidden));
            match entries[i].kind {
                EntryKind::File => {
                    lemma_parts_of_child(dir, name);
                },
                EntryKind::Directory(sub) => {
                    let child = child_path(dir, name);
                    lemma_dir_part_is_below(child, sub, include_hidden, path);
                    lemma_child_is_under(dir, name);
                    if dir_part(path) != child {
                        lemma_under_child(dir, name, dir_part(path));
                    }
                },
                EntryKind::Other => {},
            }
        },
    }
}

/// What is at or below an entry of a directory is not the directory.
proof fn lemma_below_child_is_not_dir(dir: Seq<char>, name: Seq<char>, path: Seq<char>)
    requires
        is_at_or_below(child_path(dir, name), path),
    ensures
        path != dir,
{
    lemma_child_is_under(dir, name);
}

/// What is at or below two entries of one directory is at or below entries
/// of the same name.
proof fn lemma_below_one_child(dir: Seq<char>, a: Seq<char>, b: Seq<char>, path: Seq<char>)
    requires
        free_of(a, '/'),
        free_of(b, '/'),
        is_at_or_below(child_path(dir, a), path),
        is_at_or_below(child_path(dir, b), path),
    ensures
        a == b,
{
    let x = child_path(dir, a);
    let y = child_path(dir, b);
    if path == x && path == y {
        lemma_child_path_decides(dir, a, b);
    } else if path == x {
        lemma_child_not_below(dir, b, a);
    } else if path == y {
        lemma_child_not_below(dir, a, b);
    } else {
        lemma_children_apart(dir, a, b, path);
    }
}

/// Two lists in order that share no directory are in order when joined.
proof fn lemma_joined_in_order(a: Seq<Seq<char>>, b: Seq<Seq<char>>)
    requires
        is_in_order(a),
        is_in_order(b),
        forall|i: int, j: int|
            0 <= i < a.len() && 0 <= j < b.len() ==> dir_part(#[trigger] a[i]) != dir_part(
                #[trigger] b[j],
            ),
    ensures
        is_in_order(a + b),
{
    let all = a + b;
    assert forall|i: int, j: int|
        0 <= i < j < all.len() && dir_part(#[trigger] all[i]) == dir_part(
            #[trigger] all[j],
        ) implies lex_lt(name_part(all[i]), name_part(all[j])) && is_one_directory(all, i, j) by {
        if j < a.len() {
            assert(all[i] == a[i] && all[j] == a[j]);
            assert(is_one_directory(a, i, j));
            assert forall|m: int| i < m < j implies dir_part(#[trigger] all[m]) == dir_part(all[i]) by {
                assert(all[m] == a[m]);
            }
        } else if i >= a.len() {
            let x = i - a.len();
            let y = j - a.len();
            assert(all[i] == b[x] && all[j] == b[y]);
            assert(is_one_directory(b, x, y));
            assert forall|m: int| i < m < j implies dir_part(#[trigger] all[m]) == dir_part(all[i]) by {
                assert(all[m] == b[m - a.len()]);
            }
        } else {
            assert(all[i] == a[i] && all[j] == b[j - a.len()]);
        }
    }
}

proof fn lemma_subdirs_in_order(dir: Seq<char>, held: Vec<DirEntry>, n: nat, include_hidden: bool)
    requires
        has_proper_names(DirContent::Entries(held), include_hidden),
        n <= listing_order(held@, include_hidden, held@.len()).len(),
        scan_subdirs(
            dir,
            held@,
            listing_order(held@, include_hidden, held@.len()),
            n,
            include_hidden,
        ) is Ok,
    ensures
        is_in_order(
            scan_subdirs(
                dir,
                held@,
                listing_order(held@, include_hidden, held@.len()),
                n,
                include_hidden,
            )->Ok_0,
        ),
    decreases held@, n,
{
    let entries = held@;
    assert(entries.len() == held.len());
    let order = listing_order(entries, include_hidden, entries.len());
    lemma_listing_order(entries, include_hidden, entries.len());
    lemma_order_holds_listed(entries, include_hidden);
    if n > 0 {
        lemma_subdirs_in_order(dir, held, (n - 1) as nat, include_hidden);
        let found = scan_subdirs(dir, entries, order, (n - 1) as nat, include_hidden)->Ok_0;
        let x = order[n - 1] as int;
        let name = entries[x].name@;
        assert(is_proper_entry(entries, x, include_hidden));
        match entries[x].kind {
            EntryKind::Directory(sub) => {
                let inner_dir = child_path(dir, name);
                lemma_scan_in_order(inner_dir, sub, include_hidden);
                lemma_scan_members(inner_dir, sub, include_hidden);
                lemma_subdirs_members(dir, entries, order, (n - 1) as nat, include_hidden);
                let inner = scan(inner_dir, sub, include_hidden)->Ok_0;
                assert forall|i: int, j: int|
                    0 <= i < found.len() && 0 <= j < inner.len() implies dir_part(
                    #[trigger] found[i],
                ) != dir_part(#[trigger] inner[j]) by {
                    let p = found[i];
                    let q = inner[j];
                    assert(found.contains(p) && inner.contains(q));
                    lemma_dir_part_is_below(inner_dir, sub, include_hidden, q);
                    let k = choose|k: int|
                        0 <= k < n - 1 && entries[order[k] as int].kind is Directory
                            && #[trigger] is_found_at(
                            dir,
                            entries,
                            order[k] as int,
                            include_hidden,
                            p,
                        );
                    let y = order[k] as int;
                    lemma_order_positions_differ(entries, include_hidden, k, n - 1);
                    assert(is_proper_entry(entries, y, include_hidden));
                    assert(entries[y].name@ != name) by {
                        if y < x {
                            assert(entries[y].name@ != entries[x].name@);
                        } else {
                            assert(entries[x].name@ != entries[y].name@);
                        }
                    }
                    match entries[y].kind {
                        EntryKind::Directory(other) => {
                            lemma_dir_part_is_below(
                                child_path(dir, entries[y].name@),
                                other,
                                include_hidden,
                                p,
                            );
                        },
                        _ => {},
                    }
                    if dir_part(p) == dir_part(q) {
                        lemma_below_one_child(dir, entries[y].name@, name, dir_part(p));
                    }
                }
                lemma_joined_in_order(found, inner);
            },
            _ => {},
        }
    }
}

proof fn lemma_level_in_order(dir: Seq<char>, held: Vec<DirEntry>, n: nat, include_hidden: bool)
    requires
        has_proper_names(DirContent::Entries(held), include_hidden),
        n <= listing_order(held@, include_hidden, held@.len()).len(),
    ensures
        ({
            let level = level_files(dir, held@, listing_order(held@, include_hidden, held@.len()), n);
            &&& forall|i: int| 0 <= i < level.len() ==> dir_part(#[trigger] level[i]) == dir
            &&& forall|i: int, j: int|
                0 <= i < j < level.len() ==> lex_lt(
                    name_part(#[trigger] level[i]),
                    name_part(#[trigger] level[j]),
                )
        }),
    decreases n,
{
    let entries = held@;
    assert(entries.len() == held.len());
    let order = listing_order(entries, include_hidden, entries.len());
    lemma_listing_order(entries, include_hidden, entries.len());
    lemma_order_holds_listed(entries, include_hidden);
    if n > 0 {
        lemma_level_in_order(dir, held, (n - 1) as nat, include_hidden);
        lemma_level_members(dir, entries, order, (n - 1) as nat, include_hidden);
        let rest = level_files(dir, entries, order, (n - 1) as nat);
        let level = level_files(dir, entries, order, n);
        let x = order[n - 1] as int;
        assert(is_proper_entry(entries, x, include_hidden));
        if entries[x].kind is File {
            let name = entries[x].name@;
            lemma_parts_of_child(dir, name);
            assert(level == rest.push(child_path(dir, name)));
            assert forall|i: int| 0 <= i < level.len() implies dir_part(#[trigger] level[i]) == dir by {
                if i < rest.len() {
                    assert(level[i] == rest[i]);
                }
            }
            assert forall|i: int, j: int| 0 <= i < j < level.len() implies lex_lt(
                name_part(#[trigger] level[i]),
                name_part(#[trigger] level[j]),
            ) by {
                assert(level[i] == rest[i]);
                if j < rest.len() {
                    assert(level[j] == rest[j]);
                } else {
                    assert(rest.contains(rest[i]));
                    let k = choose|k: int|
                        0 <= k < n - 1 && entries[order[k] as int].kind is File
                            && #[trigger] is_found_at(
                            dir,
                            entries,
                            order[k] as int,
                            include_hidden,
                            rest[i],
                        );
                    let y = order[k] as int;
                    assert(is_proper_entry(entries, y, include_hidden));
                    lemma_parts_of_child(dir, entries[y].name@);
                    lemma_order_positions_differ(entries, include_hidden, k, n - 1);
                    assert(lex_lt(entries[y].name@, name) || (entries[y].name@ == name && order[k]
                        < order[n - 1]));
                    if y < x {
                        assert(entries[y].name@ != entries[x].name@);
                    } else {
                        assert(entries[x].name@ != entries[y].name@);
                    }
                }
            }
        }
    }
}

/// With proper names, the files of one directory stand together in what a
/// scan lists, in ascending order of their names: the order of the result is
/// that of the names, directory by directory.
pub proof fn lemma_scan_in_order(dir: Seq<char>, content: DirContent, include_hidden: bool)
    requires
        has_proper_names(content, include_hidden),
        scan(dir, content, include_hidden) is Ok,
    ensures
        is_in_order(scan(dir, content, include_hidden)->Ok_0),
    decreases content, 0nat,
{
    match content {
        DirContent::Unreadable(_) => {},
        DirContent::Entries(held) => {
            let entries = held@;
            assert(entries.len() == held.len());
            let order = listing_order(entries, include_hidden, entries.len());
            lemma_listing_order(entries, include_hidden, entries.len());
            lemma_order_holds_listed(entries, include_hidden);
            lemma_subdirs_in_order(dir, held, order.len(), include_hidden);
            lemma_level_in_order(dir, held, order.len(), include_hidden);
            lemma_subdirs_members(dir, entries, order, order.len(), include_hidden);
            let nested = scan_subdirs(dir, entries, order, order.len(), include_hidden)->Ok_0;
            let level = level_files(dir, entries, order, order.len());
            assert(is_in_order(level)) by {
                assert forall|i: int, j: int|
                    0 <= i < j < level.len() && dir_part(#[trigger] level[i]) == dir_part(
                        #[trigger] level[j],
                    ) implies lex_lt(name_part(level[i]), name_part(level[j])) && is_one_directory(
                    level,
                    i,
                    j,
                ) by {}
            }
            assert forall|i: int, j: int|
                0 <= i < nested.len() && 0 <= j < level.len() implies dir_part(#[trigger] nested[i])
                != dir_part(#[trigger] level[j]) by {
                let p = nested[i];
                assert(nested.contains(p));
                let k = choose|k: int|
                    0 <= k < order.len() && entries[order[k] as int].kind is Directory
                        && #[trigger] is_found_at(
                        dir,
                        entries,
                        order[k] as int,
                        include_hidden,
                        p,
                    );
                let y = order[k] as int;
                assert(is_proper_entry(entries, y, include_hidden));
                match entries[y].kind {
                    EntryKind::Directory(sub) => {
                        lemma_dir_part_is_below(
                            child_path(dir, entries[y].name@),
                            sub,
                            include_hidden,
                            p,
                        );
                    },
                    _ => {},
                }
                lemma_below_child_is_not_dir(dir, entries[y].name@, dir_part(p));
            }
            lemma_joined_in_order(nested, level);
        },
    }
}

/// The path of the entry `name` of the directory `dir`.
pub fn join_path(dir: &str, name: &str) -> (path: String)
    ensures
        path@ == child_path(dir@, name@),
{
    let mut path: String = String::from_str(dir);
    proof {
        reveal_strlit("/");
    }
    path.append("/");
    path.append(name);
    assert(path@ =~= child_path(dir@, name@));
    path
}

/// Lists the regular files below `dir`, whose content is `content`.
///
/// Entries whose name starts with a dot are passed over, at every depth,
/// unless `include_hidden_files` is set. A directory that could not be read,
/// at any depth that the scan reaches, fails the whole scan.
pub fn search_files(dir: &str, content: &DirContent, include_hidden_files: bool) -> (out: Result<
    Vec<String>,
    SystemError,
>)
    ensures
        match scan(dir@, *content, include_hidden_files) {
            Ok(paths) => out matches Ok(files) && views(files@) == paths,
            Err(reason) => out matches Err(SystemError::UnableToReadDir(text)) && text@ == reason,
        },
    decreases content,
{
    match content {
        DirContent::Unreadable(reason) => Err(SystemError::UnableToReadDir(reason.clone())),
        DirContent::Entries(entries) => {
            let order: Vec<usize> = sorted_listing(entries, include_hidden_files);
            let mut files: Vec<String> = Vec::new();
            let mut k: usize = 0;
            assert(views(files@) =~= Seq::empty());
            while k < order.len()
                invariant
                    k <= order@.len(),
                    *content == DirContent::Entries(*entries),
                    order@ == listing_order(entries@, include_hidden_files, entries@.len()),
                    forall|j: int| 0 <= j < order@.len() ==> (#[trigger] order@[j]) < entries@.len(),
                    scan_subdirs(dir@, entries@, order@, k as nat, include_hidden_files) == Ok::<
                        Seq<Seq<char>>,
                        Seq<char>,
                    >(views(files@)),
                decreases order.len() - k,
            {
                let entry: &DirEntry = &entries[order[k]];
                if let EntryKind::Directory(sub) = &entry.kind {
                    let child: String = join_path(dir, entry.name.as_str());
                    match search_files(child.as_str(), sub, include_hidden_files) {
                        Err(e) => {
                            proof {
                                lemma_failure_stays(
                                    dir@,
                                    entries@,
                                    order@,
                                    (k + 1) as nat,
                                    order@.len(),
                                    include_hidden_files,
                                );
                            }
                            return Err(e);
                        },
                        Ok(mut inner) => {
                            let ghost before = views(files@);
                            let ghost added = views(inner@);
                            files.append(&mut inner);
                            assert(views(files@) =~= before + added);
                        },
                    }
                }
                k += 1;
            }
            let ghost nested = views(files@);
            let mut k: usize = 0;
            while k < order.len()
                invariant
                    k <= order@.len(),
                    forall|j: int| 0 <= j < order@.len() ==> (#[trigger] order@[j]) < entries@.len(),
                    views(files@) == nested + level_files(dir@, entries@, order@, k as nat),
                decreases order.len() - k,
            {
                let entry: &DirEntry = &entries[order[k]];
                if let EntryKind::File = &entry.kind {
                    let ghost before = views(files@);
                    let path: String = join_path(dir, entry.name.as_str());
                    files.push(path);
                    assert(views(files@) =~= before.push(path@));
                }
                k += 1;
                assert(views(files@) =~= nested + level_files(dir@, entries@, order@, k as nat));
            }
            Ok(files)
        },
    }
}

} // verus!
