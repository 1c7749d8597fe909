//! The digests of one file: at most one per algorithm, kept in ascending order
//! of the algorithm's identifier, so that two files with the same digests hold
//! them in the same order whatever the order in which they were computed.

use crate::text::{
    chars_lt, chars_of, free_of, lemma_ascending_is_canonical, lemma_lex_connected,
    lemma_lex_irreflexive, lemma_lex_transitive, lex_lt, same_text, strictly_ascending,
};
use vstd::prelude::*;
use vstd::string::StringExecFns;

verus! {

/// The entries come in strictly ascending order of their algorithm identifier;
/// in particular no identifier occurs twice.
pub open spec fn strictly_sorted(pairs: Seq<(Seq<char>, Seq<char>)>) -> bool {
    forall|i: int, j: int| 0 <= i < j < pairs.len() ==> lex_lt(#[trigger] pairs[i].0, #[trigger] pairs[j].0)
}

/// The first position at or after `i` whose identifier does not come before `k`.
pub open spec fn slot_from(pairs: Seq<(Seq<char>, Seq<char>)>, k: Seq<char>, i: int) -> int
    decreases pairs.len() - i,
{
    if i < 0 || i >= pairs.len() || !lex_lt(pairs[i].0, k) {
        i
    } else {
        slot_from(pairs, k, i + 1)
    }
}

/// The position at which an entry for `k` stands, or would be put.
pub open spec fn slot(pairs: Seq<(Seq<char>, Seq<char>)>, k: Seq<char>) -> int {
    slot_from(pairs, k, 0)
}

/// `pairs` with the digest of `k` set to `v`: replaced where `k` has an entry,
/// put in at its place in the order where it has none.
pub open spec fn insert_pair(pairs: Seq<(Seq<char>, Seq<char>)>, k: Seq<char>, v: Seq<char>) -> Seq<
    (Seq<char>, Seq<char>),
> {
    let p = slot(pairs, k);
    if 0 <= p < pairs.len() && pairs[p].0 == k {
        pairs.update(p, (k, v))
    } else {
        pairs.insert(p, (k, v))
    }
}

/// The position of the first entry at or after `i` whose identifier is `k`, or
/// the length where there is none.
pub open spec fn find_from(pairs: Seq<(Seq<char>, Seq<char>)>, k: Seq<char>, i: int) -> int
    decreases pairs.len() - i,
{
    if i < 0 || i >= pairs.len() {
        pairs.len() as int
    } else if pairs[i].0 == k {
        i
    } else {
        find_from(pairs, k, i + 1)
    }
}

/// The digest recorded for `k`, if any.
pub open spec fn lookup(pairs: Seq<(Seq<char>, Seq<char>)>, k: Seq<char>) -> Option<Seq<char>> {
    let p = find_from(pairs, k, 0);
    if 0 <= p < pairs.len() {
        Some(pairs[p].1)
    } else {
        None
    }
}

/// One entry as it stands in a grouping key: identifier, a colon, digest.
pub open spec fn render_pair(pair: (Seq<char>, Seq<char>)) -> Seq<char> {
    pair.0 + seq![':'] + pair.1
}

/// The grouping key of a set of digests: its entries, in their order, each
/// rendered by `render_pair`, with a bar between two of them.
pub open spec fn render_key(pairs: Seq<(Seq<char>, Seq<char>)>) -> Seq<char>
    decreases pairs.len(),
{
    if pairs.len() == 0 {
        Seq::empty()
    } else if pairs.len() == 1 {
        render_pair(pairs[0])
    } else {
        render_key(pairs.drop_last()) + seq!['|'] + render_pair(pairs.last())
    }
}

proof fn lemma_slot_bounds(pairs: Seq<(Seq<char>, Seq<char>)>, k: Seq<char>, i: int)
    requires
        0 <= i <= pairs.len(),
    ensures
        i <= slot_from(pairs, k, i) <= pairs.len(),
        forall|j: int| i <= j < slot_from(pairs, k, i) ==> lex_lt(#[trigger] pairs[j].0, k),
        slot_from(pairs, k, i) < pairs.len() ==> !lex_lt(pairs[slot_from(pairs, k, i)].0, k),
    decreases pairs.len() - i,
{
    if i < pairs.len() && lex_lt(pairs[i].0, k) {
        lemma_slot_bounds(pairs, k, i + 1);
    }
}

proof fn lemma_find_from_is(pairs: Seq<(Seq<char>, Seq<char>)>, k: Seq<char>, i: int, q: int)
    requires
        0 <= i <= q <= pairs.len(),
        forall|j: int| i <= j < q ==> (#[trigger] pairs[j]).0 != k,
        q < pairs.len() ==> pairs[q].0 == k,
    ensures
        find_from(pairs, k, i) == q,
    decreases q - i,
{
    if i < q {
        assert(pairs[i].0 != k);
        lemma_find_from_is(pairs, k, i + 1, q);
    }
}

proof fn lemma_find_from_bounds(pairs: Seq<(Seq<char>, Seq<char>)>, k: Seq<char>, i: int)
    requires
        0 <= i <= pairs.len(),
    ensures
        i <= find_from(pairs, k, i) <= pairs.len(),
        find_from(pairs, k, i) < pairs.len() ==> pairs[find_from(pairs, k, i)].0 == k,
        forall|j: int| i <= j < find_from(pairs, k, i) ==> (#[trigger] pairs[j]).0 != k,
    decreases pairs.len() - i,
{
    if i < pairs.len() && pairs[i].0 != k {
        lemma_find_from_bounds(pairs, k, i + 1);
    }
}

/// After a digest is set for an algorithm, it is the digest found for it.
pub proof fn lemma_lookup_after_insert(pairs: Seq<(Seq<char>, Seq<char>)>, k: Seq<char>, v: Seq<char>)
    ensures
        lookup(insert_pair(pairs, k, v), k) == Some(v),
{
    let p = slot(pairs, k);
    lemma_slot_bounds(pairs, k, 0);
    let out = insert_pair(pairs, k, v);
    assert forall|j: int| 0 <= j < p implies (#[trigger] out[j]).0 != k by {
        assert(out[j] == pairs[j]);
        assert(lex_lt(pairs[j].0, k));
        lemma_lex_irreflexive(k);
    }
    assert(out[p] == (k, v));
    lemma_find_from_is(out, k, 0, p);
}

/// Setting the digest of one algorithm leaves the digests of the others.
pub proof fn lemma_lookup_of_others(
    pairs: Seq<(Seq<char>, Seq<char>)>,
    k: Seq<char>,
    v: Seq<char>,
    other: Seq<char>,
)
    requires
        other != k,
    ensures
        lookup(insert_pair(pairs, k, v), other) == lookup(pairs, other),
{
    let p = slot(pairs, k);
    lemma_slot_bounds(pairs, k, 0);
    let out = insert_pair(pairs, k, v);
    let q = find_from(pairs, other, 0);
    lemma_find_from_bounds(pairs, other, 0);
    if p < pairs.len() && pairs[p].0 == k {
        assert forall|j: int| 0 <= j < q implies (#[trigger] out[j]).0 != other by {
            if j != p {
                assert(out[j] == pairs[j]);
            }
        }
        if q < pairs.len() {
            assert(out[q] == pairs[q]);
        }
        lemma_find_from_is(out, other, 0, q);
    } else {
        let q2 = if q < p {
            q
        } else {
            q + 1
        };
        assert forall|j: int| 0 <= j < q2 implies (#[trigger] out[j]).0 != other by {
            if j < p {
                assert(out[j] == pairs[j]);
            } else if j > p {
                assert(out[j] == pairs[j - 1]);
            }
        }
        if q < pairs.len() {
            assert(out[q2] == pairs[q]);
        }
        lemma_find_from_is(out, other, 0, q2);
    }
}

/// Setting anew the digest that an algorithm has changes nothing.
pub proof fn lemma_insert_again(pairs: Seq<(Seq<char>, Seq<char>)>, k: Seq<char>)
    requires
        strictly_sorted(pairs),
        lookup(pairs, k) is Some,
    ensures
        insert_pair(pairs, k, lookup(pairs, k)->0) == pairs,
{
    let q = find_from(pairs, k, 0);
    lemma_find_from_bounds(pairs, k, 0);
    let p = slot(pairs, k);
    lemma_slot_bounds(pairs, k, 0);
    if p < q {
        assert(lex_lt(pairs[p].0, pairs[q].0));
    } else if q < p {
        assert(lex_lt(pairs[q].0, k));
        lemma_lex_irreflexive(k);
    }
    assert(p == q);
    assert(insert_pair(pairs, k, pairs[q].1) =~= pairs);
}

/// Setting a digest keeps the entries in strictly ascending order.
pub proof fn lemma_insert_keeps_order(pairs: Seq<(Seq<char>, Seq<char>)>, k: Seq<char>, v: Seq<char>)
    requires
        strictly_sorted(pairs),
    ensures
        strictly_sorted(insert_pair(pairs, k, v)),
{
    let p = slot(pairs, k);
    lemma_slot_bounds(pairs, k, 0);
    let out = insert_pair(pairs, k, v);
    assert forall|i: int, j: int| 0 <= i < j < out.len() implies lex_lt(
        #[trigger] out[i].0,
        #[trigger] out[j].0,
    ) by {
        if p < pairs.len() && pairs[p].0 == k {
            assert(out[i].0 == pairs[i].0);
            assert(out[j].0 == pairs[j].0);
        } else {
            // `k` is new: it stands strictly between its neighbours.
            if p < pairs.len() {
                lemma_lex_connected_strict(pairs[p].0, k);
            }
            if j < p {
                assert(out[i] == pairs[i] && out[j] == pairs[j]);
            } else if j == p {
                assert(out[i] == pairs[i]);
            } else if i < p {
                assert(out[i] == pairs[i] && out[j] == pairs[j - 1]);
                if j - 1 > p {
                    assert(lex_lt(pairs[p].0, pairs[j - 1].0));
                    lemma_lex_transitive(k, pairs[p].0, pairs[j - 1].0);
                }
                lemma_lex_transitive(pairs[i].0, k, pairs[j - 1].0);
            } else if i == p {
                assert(out[j] == pairs[j - 1]);
                if j - 1 > p {
                    assert(lex_lt(pairs[p].0, pairs[j - 1].0));
                    lemma_lex_transitive(k, pairs[p].0, pairs[j - 1].0);
                }
            } else {
                assert(out[i] == pairs[i - 1] && out[j] == pairs[j - 1]);
            }
        }
    }
}

proof fn lemma_lex_connected_strict(a: Seq<char>, b: Seq<char>)
    requires
        !lex_lt(a, b),
        a != b,
    ensures
        lex_lt(b, a),
{
    if !lex_lt(b, a) {
        lemma_lex_connected(a, b);
    }
}

/// `text` holds neither of the two characters that separate the parts of a
/// grouping key.
pub open spec fn is_plain(text: Seq<char>) -> bool {
    forall|i: int| 0 <= i < text.len() ==> #[trigger] text[i] != ':' && text[i] != '|'
}

/// Every identifier and every digest is plain. This holds of the identifiers
/// that the library knows and of digests in hexadecimal.
pub open spec fn all_plain(pairs: Seq<(Seq<char>, Seq<char>)>) -> bool {
    forall|i: int| 0 <= i < pairs.len() ==> is_plain((#[trigger] pairs[i]).0) && is_plain(pairs[i].1)
}

/// A text is cut at the first separator in one way only.
proof fn lemma_cut_at_first(x1: Seq<char>, y1: Seq<char>, x2: Seq<char>, y2: Seq<char>, c: char)
    requires
        x1 + seq![c] + y1 == x2 + seq![c] + y2,
        free_of(x1, c),
        free_of(x2, c),
    ensures
        x1 == x2,
        y1 == y2,
{
    let t1 = x1 + seq![c] + y1;
    let t2 = x2 + seq![c] + y2;
    assert(t1[x1.len() as int] == c);
    assert(t2[x2.len() as int] == c);
    if x1.len() < x2.len() {
        assert(t2[x1.len() as int] == x2[x1.len() as int]);
    } else if x2.len() < x1.len() {
        assert(t1[x2.len() as int] == x1[x2.len() as int]);
    }
    assert(x1.len() == x2.len());
    assert(t1.len() == t2.len());
    assert forall|i: int| 0 <= i < x1.len() implies x1[i] == x2[i] by {
        assert(t1[i] == x1[i] && t2[i] == x2[i]);
    }
    assert(x1 =~= x2);
    assert forall|i: int| 0 <= i < y1.len() implies y1[i] == y2[i] by {
        assert(t1[x1.len() + 1 + i] == y1[i] && t2[x2.len() + 1 + i] == y2[i]);
    }
    assert(y1 =~= y2);
}

/// A text is cut at the last separator in one way only.
proof fn lemma_cut_at_last(x1: Seq<char>, y1: Seq<char>, x2: Seq<char>, y2: Seq<char>, c: char)
    requires
        x1 + seq![c] + y1 == x2 + seq![c] + y2,
        free_of(y1, c),
        free_of(y2, c),
    ensures
        x1 == x2,
        y1 == y2,
{
    let t1 = x1 + seq![c] + y1;
    let t2 = x2 + seq![c] + y2;
    assert(t1.len() == t2.len());
    assert(t1[x1.len() as int] == c);
    assert(t2[x2.len() as int] == c);
    if x1.len() < x2.len() {
        // the separator of the second cut falls inside `y1`
        assert(t1[x2.len() as int] == y1[x2.len() - x1.len() - 1]);
    } else if x2.len() < x1.len() {
        assert(t2[x1.len() as int] == y2[x1.len() - x2.len() - 1]);
    }
    assert(x1.len() == x2.len());
    assert forall|i: int| 0 <= i < x1.len() implies x1[i] == x2[i] by {
        assert(t1[i] == x1[i] && t2[i] == x2[i]);
    }
    assert(x1 =~= x2);
    assert forall|i: int| 0 <= i < y1.len() implies y1[i] == y2[i] by {
        assert(t1[x1.len() + 1 + i] == y1[i] && t2[x2.len() + 1 + i] == y2[i]);
    }
    assert(y1 =~= y2);
}

/// Setting a plain digest for a plain identifier keeps a list plain.
pub proof fn lemma_insert_keeps_plain(pairs: Seq<(Seq<char>, Seq<char>)>, k: Seq<char>, v: Seq<char>)
    requires
        all_plain(pairs),
        is_plain(k),
        is_plain(v),
    ensures
        all_plain(insert_pair(pairs, k, v)),
{
    let p = slot(pairs, k);
    lemma_slot_bounds(pairs, k, 0);
    let out = insert_pair(pairs, k, v);
    assert forall|i: int| 0 <= i < out.len() implies is_plain((#[trigger] out[i]).0) && is_plain(
        out[i].1,
    ) by {
        if i < p {
            assert(out[i] == pairs[i]);
        } else if i > p {
            if p < pairs.len() && pairs[p].0 == k {
                assert(out[i] == pairs[i]);
            } else {
                assert(out[i] == pairs[i - 1]);
            }
        }
    }
}

/// The rendering of a plain entry holds no bar, and one colon.
proof fn lemma_pair_has_no_bar(pair: (Seq<char>, Seq<char>))
    requires
        is_plain(pair.0),
        is_plain(pair.1),
    ensures
        free_of(render_pair(pair), '|'),
        render_pair(pair).len() > 0,
{
    let t = render_pair(pair);
    assert forall|i: int| 0 <= i < t.len() implies #[trigger] t[i] != '|' by {
        if i < pair.0.len() {
            assert(t[i] == pair.0[i]);
        } else if i == pair.0.len() {
            assert(t[i] == ':');
        } else {
            assert(t[i] == pair.1[i - pair.0.len() - 1]);
        }
    }
}

/// The key of two or more entries is the key of all but the last, a bar, and
/// the rendering of the last.
proof fn lemma_key_shape(pairs: Seq<(Seq<char>, Seq<char>)>)
    requires
        all_plain(pairs),
    ensures
        pairs.len() == 0 ==> render_key(pairs).len() == 0,
        pairs.len() >= 1 ==> render_key(pairs).len() > 0,
        pairs.len() == 1 ==> free_of(render_key(pairs), '|'),
        pairs.len() >= 2 ==> render_key(pairs) == render_key(pairs.drop_last()) + seq!['|'] + render_pair(
            pairs.last(),
        ) && !free_of(render_key(pairs), '|'),
{
    if pairs.len() >= 1 {
        lemma_pair_has_no_bar(pairs.last());
    }
    if pairs.len() >= 2 {
        let t = render_key(pairs);
        assert(t[render_key(pairs.drop_last()).len() as int] == '|');
    }
}

/// Two lists of plain entries with the same grouping key are the same list:
/// the key can be read back in one way only.
pub proof fn lemma_key_decides(a: Seq<(Seq<char>, Seq<char>)>, b: Seq<(Seq<char>, Seq<char>)>)
    requires
        all_plain(a),
        all_plain(b),
        render_key(a) == render_key(b),
    ensures
        a == b,
    decreases a.len(),
{
    lemma_key_shape(a);
    lemma_key_shape(b);
    if a.len() == 0 || b.len() == 0 {
        assert(a =~= b);
    } else {
        let la = a.last();
        let lb = b.last();
        lemma_pair_has_no_bar(la);
        lemma_pair_has_no_bar(lb);
        assert(all_plain(a.drop_last())) by {
            assert forall|i: int| 0 <= i < a.drop_last().len() implies is_plain(
                (#[trigger] a.drop_last()[i]).0,
            ) && is_plain(a.drop_last()[i].1) by {
                assert(a.drop_last()[i] == a[i]);
            }
        }
        assert(all_plain(b.drop_last())) by {
            assert forall|i: int| 0 <= i < b.drop_last().len() implies is_plain(
                (#[trigger] b.drop_last()[i]).0,
            ) && is_plain(b.drop_last()[i].1) by {
                assert(b.drop_last()[i] == b[i]);
            }
        }
        if a.len() == 1 && b.len() == 1 {
            assert(render_pair(a[0]) == render_pair(b[0]));
        } else if a.len() >= 2 && b.len() >= 2 {
            lemma_cut_at_last(
                render_key(a.drop_last()),
                render_pair(la),
                render_key(b.drop_last()),
                render_pair(lb),
                '|',
            );
            lemma_key_decides(a.drop_last(), b.drop_last());
        }
        assert(render_pair(la) == render_pair(lb));
        assert(free_of(la.0, ':') && free_of(lb.0, ':'));
        lemma_cut_at_first(la.0, la.1, lb.0, lb.1, ':');
        assert(la == lb);
        assert(a =~= a.drop_last().push(la));
        assert(b =~= b.drop_last().push(lb));
    }
}

/// Two lists in strictly ascending order that hold the same entries are the
/// same list: the order in which digests were recorded leaves no trace.
pub proof fn lemma_order_is_canonical(a: Seq<(Seq<char>, Seq<char>)>, b: Seq<(Seq<char>, Seq<char>)>)
    requires
        strictly_sorted(a),
        strictly_sorted(b),
        forall|x: (Seq<char>, Seq<char>)| a.contains(x) <==> b.contains(x),
    ensures
        a == b,
{
    let key = |pair: (Seq<char>, Seq<char>)| pair.0;
    assert(strictly_ascending(a, key)) by {
        assert forall|i: int, j: int| 0 <= i < j < a.len() implies lex_lt(
            key(#[trigger] a[i]),
            key(#[trigger] a[j]),
        ) by {
            assert(lex_lt(a[i].0, a[j].0));
        }
    }
    assert(strictly_ascending(b, key)) by {
        assert forall|i: int, j: int| 0 <= i < j < b.len() implies lex_lt(
            key(#[trigger] b[i]),
            key(#[trigger] b[j]),
        ) by {
            assert(lex_lt(b[i].0, b[j].0));
        }
    }
    lemma_ascending_is_canonical(a, b, key);
}

/// Two sets of digests, each held in ascending order of algorithm and made of
/// plain texts, have the same grouping key exactly when they are the same
/// set of pairs of algorithm and digest.
pub proof fn lemma_key_collides_on_equal_digests(
    a: Seq<(Seq<char>, Seq<char>)>,
    b: Seq<(Seq<char>, Seq<char>)>,
)
    requires
        strictly_sorted(a),
        strictly_sorted(b),
        all_plain(a),
        all_plain(b),
    ensures
        render_key(a) == render_key(b) <==> a.to_set() == b.to_set(),
{
    if render_key(a) == render_key(b) {
        lemma_key_decides(a, b);
    }
    if a.to_set() == b.to_set() {
        assert forall|x: (Seq<char>, Seq<char>)| a.contains(x) <==> b.contains(x) by {
            assert(a.contains(x) <==> a.to_set().contains(x));
            assert(b.contains(x) <==> b.to_set().contains(x));
        }
        lemma_order_is_canonical(a, b);
    }
}

/// The digests of one file, one per algorithm.
#[derive(Debug, PartialEq, Eq)]
pub struct Checksums {
    entries: Vec<(String, String)>,
}

impl View for Checksums {
    type V = Seq<(Seq<char>, Seq<char>)>;

    /// The entries as pairs of algorithm identifier and digest, in their order.
    closed spec fn view(&self) -> Seq<(Seq<char>, Seq<char>)> {
        Seq::new(self.entries@.len(), |i: int| (self.entries@[i].0@, self.entries@[i].1@))
    }
}

impl Checksums {
    #[verifier::type_invariant]
    spec fn ordered(self) -> bool {
        strictly_sorted(self@)
    }

    /// No digests.
    pub fn new() -> (out: Checksums)
        ensures
            out@ == Seq::<(Seq<char>, Seq<char>)>::empty(),
    {
        Checksums { entries: Vec::new() }
    }

    /// The number of algorithms with a digest.
    pub fn len(&self) -> (n: usize)
        ensures
            n == self@.len(),
    {
        self.entries.len()
    }

    /// Whether no algorithm has a digest.
    pub fn is_empty(&self) -> (b: bool)
        ensures
            b == (self@.len() == 0),
    {
        self.entries.len() == 0
    }

    /// The identifier of the `i`-th algorithm, in ascending order.
    pub fn algorithm_at(&self, i: usize) -> (k: &String)
        requires
            i < self@.len(),
        ensures
            k@ == self@[i as int].0,
    {
        &self.entries[i].0
    }

    /// The digest of the `i`-th algorithm, in ascending order.
    pub fn digest_at(&self, i: usize) -> (v: &String)
        requires
            i < self@.len(),
        ensures
            v@ == self@[i as int].1,
    {
        &self.entries[i].1
    }

    /// States what every value of this type satisfies: its entries are in
    /// strictly ascending order of algorithm identifier.
    pub fn entries_sorted(&self)
        ensures
            strictly_sorted(self@),
    {
        proof {
            use_type_invariant(self);
        }
    }

    /// The digest recorded for `algorithm`, if any.
    pub fn get(&self, algorithm: &str) -> (found: Option<&String>)
        ensures
            match lookup(self@, algorithm@) {
                Some(v) => found matches Some(s) && s@ == v,
                None => found is None,
            },
    {
        let mut i: usize = 0;
        while i < self.entries.len()
            invariant
                i <= self.entries@.len(),
                self@.len() == self.entries@.len(),
                find_from(self@, algorithm@, 0) == find_from(self@, algorithm@, i as int),
            decreases self.entries.len() - i,
        {
            if same_text(self.entries[i].0.as_str(), algorithm) {
                return Some(&self.entries[i].1);
            }
            i += 1;
        }
        None
    }

    /// Records `digest` for `algorithm`, in place of an earlier digest for it.
    pub fn insert(&mut self, algorithm: &str, digest: String)
        ensures
            final(self)@ == insert_pair(old(self)@, algorithm@, digest@),
            strictly_sorted(final(self)@),
    {
        proof {
            use_type_invariant(&*self);
            lemma_insert_keeps_order(self@, algorithm@, digest@);
        }
        let ghost before = self@;
        let mut entries: Vec<(String, String)> = Vec::new();
        core::mem::swap(&mut self.entries, &mut entries);
        let ghost held = Seq::new(entries@.len(), |i: int| (entries@[i].0@, entries@[i].1@));
        assert(held =~= before);
        let key: Vec<char> = chars_of(algorithm);
        let mut p: usize = 0;
        while p < entries.len() && chars_lt(&chars_of(entries[p].0.as_str()), &key)
            invariant
                p <= entries@.len(),
                before.len() == entries@.len(),
                forall|i: int| 0 <= i < entries@.len() ==> before[i].0 == (#[trigger] entries@[i]).0@,
                key@ == algorithm@,
                slot(before, algorithm@) == slot_from(before, algorithm@, p as int),
            decreases entries.len() - p,
        {
            p += 1;
        }
        if p < entries.len() && same_text(entries[p].0.as_str(), algorithm) {
            entries.set(p, (String::from_str(algorithm), digest));
        } else {
            entries.insert(p, (String::from_str(algorithm), digest));
        }
        let ghost after = Seq::new(entries@.len(), |i: int| (entries@[i].0@, entries@[i].1@));
        assert(after =~= insert_pair(before, algorithm@, digest@));
        core::mem::swap(&mut self.entries, &mut entries);
        assert(self@ =~= after);
    }

    /// The grouping key of these digests.
    pub fn grouping_key(&self) -> (key: String)
        ensures
            key@ == render_key(self@),
    {
        let mut key: String = String::new();
        let mut i: usize = 0;
        while i < self.entries.len()
            invariant
                i <= self.entries@.len(),
                self@.len() == self.entries@.len(),
                key@ == render_key(self@.take(i as int)),
            decreases self.entries.len() - i,
        {
            proof {
                let upto = self@.take(i as int + 1);
                assert(upto.drop_last() =~= self@.take(i as int));
                assert(upto.last() == self@[i as int]);
                reveal_strlit("|");
                reveal_strlit(":");
            }
            if i > 0 {
                key.append("|");
            }
            key.append(self.entries[i].0.as_str());
            key.append(":");
            key.append(self.entries[i].1.as_str());
            i += 1;
            assert(key@ =~= render_key(self@.take(i as int)));
        }
        assert(self@.take(i as int) =~= self@);
        key
    }

    /// A copy with the same entries.
    pub fn duplicate(&self) -> (out: Checksums)
        ensures
            out@ == self@,
    {
        proof {
            use_type_invariant(self);
        }
        let mut entries: Vec<(String, String)> = Vec::new();
        let mut i: usize = 0;
        while i < self.entries.len()
            invariant
                i <= self.entries@.len(),
                entries@.len() == i,
                forall|j: int|
                    0 <= j < i ==> entries@[j].0@ == self.entries@[j].0@ && entries@[j].1@
                        == self.entries@[j].1@,
            decreases self.entries.len() - i,
        {
            entries.push((self.entries[i].0.clone(), self.entries[i].1.clone()));
            i += 1;
        }
        assert(Seq::new(entries@.len(), |i: int| (entries@[i].0@, entries@[i].1@)) =~= self@);
        Checksums { entries }
    }
}

impl Clone for Checksums {
    fn clone(&self) -> (out: Checksums)
        ensures
            out@ == self@,
    {
        self.duplicate()
    }
}

} // verus!
