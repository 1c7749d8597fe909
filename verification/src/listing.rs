//! A directory tree as the scanner reads it, and the order in which the
//! entries of one directory are visited: ascending by name, hidden entries
//! left out unless asked for.

use crate::text::{
    chars_of, lemma_lex_asymmetric, lemma_lex_connected, lemma_lex_irreflexive,
    lemma_lex_transitive, lex_lt, place_in_order, stands_before,
};
use vstd::prelude::*;

verus! {

/// One entry of a directory.
#[derive(Debug, PartialEq, Eq)]
pub struct DirEntry {
    /// The entry's base name.
    pub name: String,
    pub kind: EntryKind,
}

/// What an entry is.
#[derive(Debug, PartialEq, Eq)]
pub enum EntryKind {
    /// A regular file.
    File,
    /// A directory, with what reading it gave.
    Directory(DirContent),
    /// Anything else: it is neither listed nor entered.
    Other,
}

/// What reading a directory gave.
#[derive(Debug, PartialEq, Eq)]
pub enum DirContent {
    /// The directory could not be read; the reason is kept as text.
    Unreadable(String),
    /// The entries, in the order in which the file system gave them.
    Entries(Vec<DirEntry>),
}

/// A name is hidden when it starts with a dot.
pub open spec fn is_hidden(name: Seq<char>) -> bool {
    name.len() > 0 && name[0] == '.'
}

/// Whether the scanner takes notice of an entry of this name.
pub open spec fn is_listed(name: Seq<char>, include_hidden: bool) -> bool {
    include_hidden || !is_hidden(name)
}

/// Where an entry called `name` enters the order `prev` of earlier entries:
/// behind every entry whose name does not come after `name`.
pub open spec fn place(entries: Seq<DirEntry>, prev: Seq<usize>, name: Seq<char>) -> int
    decreases prev.len(),
{
    if prev.len() == 0 {
        0
    } else if lex_lt(name, entries[prev.last() as int].name@) {
        place(entries, prev.drop_last(), name)
    } else {
        prev.len() as int
    }
}

/// The positions of the listed entries among the first `n`, in ascending order
/// of name. Entries of the same name keep the order in which they were given.
pub open spec fn listing_order(entries: Seq<DirEntry>, include_hidden: bool, n: nat) -> Seq<usize>
    decreases n,
{
    if n == 0 || n > entries.len() {
        Seq::empty()
    } else {
        let prev = listing_order(entries, include_hidden, (n - 1) as nat);
        let name = entries[n - 1].name@;
        if is_listed(name, include_hidden) {
            prev.insert(place(entries, prev, name), (n - 1) as usize)
        } else {
            prev
        }
    }
}

/// `order` holds positions of `entries` below `n`, none twice, in ascending
/// order of name and, among equal names, of position.
pub open spec fn is_name_order(entries: Seq<DirEntry>, order: Seq<usize>, n: nat) -> bool {
    &&& n <= entries.len()
    &&& forall|k: int| 0 <= k < order.len() ==> (#[trigger] order[k]) < n
    &&& forall|j: int, k: int|
        0 <= j < k < order.len() ==> {
            let a = entries[(#[trigger] order[j]) as int].name@;
            let b = entries[(#[trigger] order[k]) as int].name@;
            lex_lt(a, b) || (a == b && order[j] < order[k])
        }
}

proof fn lemma_place_bounds(entries: Seq<DirEntry>, prev: Seq<usize>, name: Seq<char>)
    ensures
        0 <= place(entries, prev, name) <= prev.len(),
        forall|k: int|
            place(entries, prev, name) <= k < prev.len() ==> lex_lt(
                name,
                entries[(#[trigger] prev[k]) as int].name@,
            ),
        place(entries, prev, name) > 0 ==> !lex_lt(
            name,
            entries[prev[place(entries, prev, name) - 1] as int].name@,
        ),
    decreases prev.len(),
{
    if prev.len() > 0 && lex_lt(name, entries[prev.last() as int].name@) {
        lemma_place_bounds(entries, prev.drop_last(), name);
        let p = place(entries, prev, name);
        assert forall|k: int| p <= k < prev.len() implies lex_lt(
            name,
            entries[(#[trigger] prev[k]) as int].name@,
        ) by {
            if k < prev.len() - 1 {
                assert(prev.drop_last()[k] == prev[k]);
            }
        }
        if p > 0 {
            assert(prev.drop_last()[p - 1] == prev[p - 1]);
        }
    }
}

/// The order of a listing names each listed entry once, no other, in
/// ascending order of name; entries of one name stay in the order given.
pub proof fn lemma_listing_order(entries: Seq<DirEntry>, include_hidden: bool, n: nat)
    requires
        n <= entries.len() <= usize::MAX,
    ensures
        is_name_order(entries, listing_order(entries, include_hidden, n), n),
        forall|x: int|
            0 <= x < n ==> (is_listed(entries[x].name@, include_hidden) <==> listing_order(
                entries,
                include_hidden,
                n,
            ).contains(x as usize)),
    decreases n,
{
    if n > 0 {
        let prev = listing_order(entries, include_hidden, (n - 1) as nat);
        let order = listing_order(entries, include_hidden, n);
        lemma_listing_order(entries, include_hidden, (n - 1) as nat);
        let name = entries[n - 1].name@;
        let last = (n - 1) as usize;
        if is_listed(name, include_hidden) {
            let p = place(entries, prev, name);
            lemma_place_bounds(entries, prev, name);
            assert forall|j: int, k: int| 0 <= j < k < order.len() implies {
                let a = entries[(#[trigger] order[j]) as int].name@;
                let b = entries[(#[trigger] order[k]) as int].name@;
                lex_lt(a, b) || (a == b && order[j] < order[k])
            } by {
                let a = entries[order[j] as int].name@;
                let b = entries[order[k] as int].name@;
                if k < p {
                    assert(order[j] == prev[j] && order[k] == prev[k]);
                } else if k == p {
                    // every entry before the place comes before `name`, or
                    // equals it and was given earlier
                    assert(order[j] == prev[j]);
                    lemma_before_place(entries, prev, name, j, p);
                } else if j < p {
                    assert(order[j] == prev[j] && order[k] == prev[k - 1]);
                } else if j == p {
                    assert(order[k] == prev[k - 1]);
                } else {
                    assert(order[j] == prev[j - 1] && order[k] == prev[k - 1]);
                }
            }
            assert forall|x: int| 0 <= x < n implies (is_listed(entries[x].name@, include_hidden)
                <==> order.contains(x as usize)) by {
                if x == n - 1 {
                    assert(order[p] == last);
                } else if prev.contains(x as usize) {
                    let k = choose|k: int| 0 <= k < prev.len() && prev[k] == x as usize;
                    if k < p {
                        assert(order[k] == prev[k]);
                    } else {
                        assert(order[k + 1] == prev[k]);
                    }
                } else if order.contains(x as usize) {
                    let k = choose|k: int| 0 <= k < order.len() && order[k] == x as usize;
                    if k < p {
                        assert(prev[k] == order[k]);
                    } else if k > p {
                        assert(prev[k - 1] == order[k]);
                    }
                }
            }
            assert forall|k: int| 0 <= k < order.len() implies (#[trigger] order[k]) < n by {
                if k < p {
                    assert(order[k] == prev[k]);
                } else if k > p {
                    assert(order[k] == prev[k - 1]);
                }
            }
        } else {
            assert forall|x: int| 0 <= x < n implies (is_listed(entries[x].name@, include_hidden)
                <==> order.contains(x as usize)) by {
                if x == n - 1 && order.contains(x as usize) {
                    let k = choose|k: int| 0 <= k < order.len() && order[k] == x as usize;
                    assert(prev[k] < n - 1);
                }
            }
        }
    }
}

/// Every position of a listing order is that of a listed entry.
pub proof fn lemma_order_holds_listed(entries: Seq<DirEntry>, include_hidden: bool)
    requires
        entries.len() <= usize::MAX,
    ensures
        forall|k: int|
            0 <= k < listing_order(entries, include_hidden, entries.len()).len() ==> (
            #[trigger] listing_order(entries, include_hidden, entries.len())[k]) < entries.len()
                && is_listed(
                entries[listing_order(entries, include_hidden, entries.len())[k] as int].name@,
                include_hidden,
            ),
{
    let order = listing_order(entries, include_hidden, entries.len());
    lemma_listing_order(entries, include_hidden, entries.len());
    assert forall|k: int| 0 <= k < order.len() implies (#[trigger] order[k]) < entries.len()
        && is_listed(entries[order[k] as int].name@, include_hidden) by {
        assert(order.contains(order[k]));
    }
}

proof fn lemma_before_place(entries: Seq<DirEntry>, prev: Seq<usize>, name: Seq<char>, j: int, p: int)
    requires
        p == place(entries, prev, name),
        0 <= j < p <= prev.len(),
        forall|a: int, b: int|
            0 <= a < b < prev.len() ==> {
                let x = entries[(#[trigger] prev[a]) as int].name@;
                let y = entries[(#[trigger] prev[b]) as int].name@;
                lex_lt(x, y) || (x == y && prev[a] < prev[b])
            },
        !lex_lt(name, entries[prev[p - 1] as int].name@),
    ensures
        lex_lt(entries[prev[j] as int].name@, name) || entries[prev[j] as int].name@ == name,
{
    let a = entries[prev[j] as int].name@;
    let c = entries[prev[p - 1] as int].name@;
    if j < p - 1 {
        assert(lex_lt(a, c) || a == c);
    }
    // a <= c <= name
    if lex_lt(name, a) {
        if a != c {
            lemma_lex_transitive(name, a, c);
        }
    } else if !lex_lt(a, name) {
        lemma_lex_connected(a, name);
    }
}

/// Whether the scanner takes notice of an entry called `name`.
pub fn is_scanned(name: &str, include_hidden: bool) -> (listed: bool)
    ensures
        listed == is_listed(name@, include_hidden),
{
    if include_hidden {
        return true;
    }
    let chars: Vec<char> = chars_of(name);
    !(chars.len() > 0 && chars[0] == '.')
}

/// The names of the entries, each as its characters.
fn entry_names(entries: &Vec<DirEntry>) -> (names: Vec<Vec<char>>)
    ensures
        names@.len() == entries@.len(),
        forall|i: int| 0 <= i < names@.len() ==> (#[trigger] names@[i])@ == entries@[i].name@,
{
    let mut names: Vec<Vec<char>> = Vec::new();
    let mut i: usize = 0;
    while i < entries.len()
        invariant
            i <= entries@.len(),
            names@.len() == i,
            forall|j: int| 0 <= j < i ==> (#[trigger] names@[j])@ == entries@[j].name@,
        decreases entries.len() - i,
    {
        names.push(chars_of(entries[i].name.as_str()));
        i += 1;
    }
    names
}

/// The place of a name is where the names that come after it start.
proof fn lemma_place_is(entries: Seq<DirEntry>, prev: Seq<usize>, name: Seq<char>, p: int)
    requires
        0 <= p <= prev.len(),
        forall|k: int| p <= k < prev.len() ==> lex_lt(name, entries[(#[trigger] prev[k]) as int].name@),
        p > 0 ==> !lex_lt(name, entries[prev[p - 1] as int].name@),
    ensures
        place(entries, prev, name) == p,
    decreases prev.len() - p,
{
    if p < prev.len() {
        let shorter = prev.drop_last();
        assert(lex_lt(name, entries[prev[prev.len() - 1] as int].name@));
        assert forall|k: int| p <= k < shorter.len() implies lex_lt(
            name,
            entries[(#[trigger] shorter[k]) as int].name@,
        ) by {
            assert(shorter[k] == prev[k]);
        }
        if p > 0 {
            assert(shorter[p - 1] == prev[p - 1]);
        }
        lemma_place_is(entries, shorter, name, p);
    }
}

/// The positions of the listed entries, in the order in which the scanner
/// visits them.
pub fn sorted_listing(entries: &Vec<DirEntry>, include_hidden: bool) -> (order: Vec<usize>)
    ensures
        order@ == listing_order(entries@, include_hidden, entries@.len()),
        forall|k: int| 0 <= k < order@.len() ==> (#[trigger] order@[k]) < entries@.len(),
{
    let names: Vec<Vec<char>> = entry_names(entries);
    let mut order: Vec<usize> = Vec::new();
    let mut i: usize = 0;
    while i < entries.len()
        invariant
            i <= entries@.len(),
            names@.len() == entries@.len(),
            forall|j: int| 0 <= j < names@.len() ==> (#[trigger] names@[j])@ == entries@[j].name@,
            order@ == listing_order(entries@, include_hidden, i as nat),
            forall|k: int| 0 <= k < order@.len() ==> (#[trigger] order@[k]) < i,
        decreases entries.len() - i,
    {
        let hidden: bool = names[i].len() > 0 && names[i][0] == '.';
        if include_hidden || !hidden {
            let ghost name = entries@[i as int].name@;
            proof {
                lemma_listing_order(entries@, include_hidden, i as nat);
                assert forall|a: int, b: int| 0 <= a < b < order@.len() implies !lex_lt(
                    names@[(#[trigger] order@[b]) as int]@,
                    names@[(#[trigger] order@[a]) as int]@,
                ) by {
                    let x = entries@[order@[a] as int].name@;
                    let y = entries@[order@[b] as int].name@;
                    assert(lex_lt(x, y) || (x == y && order@[a] < order@[b]));
                    if lex_lt(x, y) {
                        lemma_lex_asymmetric(x, y);
                    } else {
                        lemma_lex_irreflexive(x);
                    }
                }
            }
            let p: usize = place_in_order(&names, &order, &names[i], true);
            proof {
                assert forall|k: int| p <= k < order@.len() implies lex_lt(
                    name,
                    entries@[(#[trigger] order@[k]) as int].name@,
                ) by {
                    assert(!stands_before(names@[order@[k] as int]@, name, true));
                }
                if p > 0 {
                    assert(stands_before(names@[order@[p - 1] as int]@, name, true));
                }
                lemma_place_is(entries@, order@, name, p as int);
            }
            let ghost before = order@;
            order.insert(p, i);
            assert forall|k: int| 0 <= k < order@.len() implies (#[trigger] order@[k]) < i + 1 by {
                if k < p {
                    assert(order@[k] == before[k]);
                } else if k > p {
                    assert(order@[k] == before[k - 1]);
                }
            }
        }
        i += 1;
    }
    order
}

} // verus!
