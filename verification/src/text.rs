//! Strings seen as sequences of characters: the order in which names are
//! sorted, comparison, and decimal rendering of numbers.

use vstd::prelude::*;
use vstd::string::StringExecFns;

verus! {

/// The views of the elements of `v`, in order.
pub open spec fn views<T: View>(v: Seq<T>) -> Seq<T::V> {
    Seq::new(v.len(), |i: int| v[i]@)
}

/// `text` does not hold the character `c`.
pub open spec fn free_of(text: Seq<char>, c: char) -> bool {
    forall|i: int| 0 <= i < text.len() ==> #[trigger] text[i] != c
}

/// `a` and `b` agree on their first `n` characters.
pub open spec fn same_prefix(a: Seq<char>, b: Seq<char>, n: int) -> bool {
    &&& 0 <= n <= a.len()
    &&& n <= b.len()
    &&& forall|k: int| 0 <= k < n ==> a[k] == b[k]
}

/// Lexicographic comparison of what follows position `i`, by code point.
pub open spec fn lex_lt_from(a: Seq<char>, b: Seq<char>, i: int) -> bool
    decreases a.len() - i,
{
    if i < 0 || i >= b.len() {
        false
    } else if i >= a.len() {
        true
    } else if a[i] != b[i] {
        (a[i] as int) < (b[i] as int)
    } else {
        lex_lt_from(a, b, i + 1)
    }
}

/// `a` comes strictly before `b` in lexicographic order by code point. This is
/// the byte-wise order of the UTF-8 encodings.
pub open spec fn lex_lt(a: Seq<char>, b: Seq<char>) -> bool {
    lex_lt_from(a, b, 0)
}

proof fn lemma_from_irreflexive(a: Seq<char>, i: int)
    ensures
        !lex_lt_from(a, a, i),
    decreases a.len() - i,
{
    if 0 <= i < a.len() {
        lemma_from_irreflexive(a, i + 1);
    }
}

proof fn lemma_from_asymmetric(a: Seq<char>, b: Seq<char>, i: int)
    requires
        lex_lt_from(a, b, i),
    ensures
        !lex_lt_from(b, a, i),
    decreases a.len() - i,
{
    if 0 <= i < a.len() && i < b.len() && a[i] == b[i] {
        lemma_from_asymmetric(a, b, i + 1);
    }
}

proof fn lemma_from_transitive(a: Seq<char>, b: Seq<char>, c: Seq<char>, i: int)
    requires
        lex_lt_from(a, b, i),
        lex_lt_from(b, c, i),
    ensures
        lex_lt_from(a, c, i),
    decreases a.len() - i,
{
    if i < a.len() && a[i] == b[i] && b[i] == c[i] {
        lemma_from_transitive(a, b, c, i + 1);
    }
}

proof fn lemma_from_connected(a: Seq<char>, b: Seq<char>, i: int)
    requires
        same_prefix(a, b, i),
        !lex_lt_from(a, b, i),
        !lex_lt_from(b, a, i),
    ensures
        a == b,
    decreases a.len() - i,
{
    if i < a.len() && i < b.len() {
        if a[i] == b[i] {
            lemma_from_connected(a, b, i + 1);
        }
    } else {
        assert(a =~= b);
    }
}

/// No string comes before itself.
pub proof fn lemma_lex_irreflexive(a: Seq<char>)
    ensures
        !lex_lt(a, a),
{
    lemma_from_irreflexive(a, 0);
}

/// Of two strings, at most one comes before the other.
pub proof fn lemma_lex_asymmetric(a: Seq<char>, b: Seq<char>)
    requires
        lex_lt(a, b),
    ensures
        !lex_lt(b, a),
{
    lemma_from_asymmetric(a, b, 0);
}

/// The order is transitive.
pub proof fn lemma_lex_transitive(a: Seq<char>, b: Seq<char>, c: Seq<char>)
    requires
        lex_lt(a, b),
        lex_lt(b, c),
    ensures
        lex_lt(a, c),
{
    lemma_from_transitive(a, b, c, 0);
}

/// Two strings of which neither comes before the other are the same string.
pub proof fn lemma_lex_connected(a: Seq<char>, b: Seq<char>)
    requires
        !lex_lt(a, b),
        !lex_lt(b, a),
    ensures
        a == b,
{
    lemma_from_connected(a, b, 0);
}

/// The elements come in strictly ascending order of their keys.
pub open spec fn strictly_ascending<T>(s: Seq<T>, key: spec_fn(T) -> Seq<char>) -> bool {
    forall|i: int, j: int| 0 <= i < j < s.len() ==> lex_lt(key(#[trigger] s[i]), key(#[trigger] s[j]))
}

/// Two lists in strictly ascending order of key that hold the same elements
/// are the same list.
pub proof fn lemma_ascending_is_canonical<T>(a: Seq<T>, b: Seq<T>, key: spec_fn(T) -> Seq<char>)
    requires
        strictly_ascending(a, key),
        strictly_ascending(b, key),
        forall|x: T| a.contains(x) <==> b.contains(x),
    ensures
        a == b,
    decreases a.len(),
{
    if a.len() == 0 {
        if b.len() > 0 {
            assert(b.contains(b[0]));
        }
        assert(a =~= b);
    } else {
        assert(a.contains(a[0]));
        assert(b.len() > 0);
        let la = a.last();
        let lb = b.last();
        assert(a.contains(la) && b.contains(lb));
        let i = choose|i: int| 0 <= i < a.len() && a[i] == lb;
        let j = choose|j: int| 0 <= j < b.len() && b[j] == la;
        if i != a.len() - 1 {
            assert(lex_lt(key(a[i]), key(a[a.len() - 1])));
            if j != b.len() - 1 {
                assert(lex_lt(key(b[j]), key(b[b.len() - 1])));
                lemma_lex_asymmetric(key(lb), key(la));
            } else {
                lemma_lex_irreflexive(key(la));
            }
        }
        assert(la == lb);
        let a1 = a.drop_last();
        let b1 = b.drop_last();
        assert forall|x: T| a1.contains(x) <==> b1.contains(x) by {
            if a1.contains(x) {
                let t = choose|t: int| 0 <= t < a1.len() && a1[t] == x;
                assert(a[t] == x);
                assert(a.contains(x));
                let m = choose|m: int| 0 <= m < b.len() && b[m] == x;
                if m == b.len() - 1 {
                    assert(lex_lt(key(a[t]), key(a[a.len() - 1])));
                    lemma_lex_irreflexive(key(la));
                }
                assert(b1[m] == x);
            }
            if b1.contains(x) {
                let t = choose|t: int| 0 <= t < b1.len() && b1[t] == x;
                assert(b[t] == x);
                assert(b.contains(x));
                let m = choose|m: int| 0 <= m < a.len() && a[m] == x;
                if m == a.len() - 1 {
                    assert(lex_lt(key(b[t]), key(b[b.len() - 1])));
                    lemma_lex_irreflexive(key(lb));
                }
                assert(a1[m] == x);
            }
        }
        assert(strictly_ascending(a1, key)) by {
            assert forall|p: int, q: int| 0 <= p < q < a1.len() implies lex_lt(
                key(#[trigger] a1[p]),
                key(#[trigger] a1[q]),
            ) by {
                assert(a1[p] == a[p] && a1[q] == a[q]);
            }
        }
        assert(strictly_ascending(b1, key)) by {
            assert forall|p: int, q: int| 0 <= p < q < b1.len() implies lex_lt(
                key(#[trigger] b1[p]),
                key(#[trigger] b1[q]),
            ) by {
                assert(b1[p] == b[p] && b1[q] == b[q]);
            }
        }
        lemma_ascending_is_canonical(a1, b1, key);
        assert(a =~= a1.push(la));
        assert(b =~= b1.push(lb));
    }
}

/// The characters of `s`, in order.
pub fn chars_of(s: &str) -> (out: Vec<char>)
    ensures
        out@ == s@,
{
    let mut out: Vec<char> = Vec::new();
    for c in it: s.chars()
        invariant
            out@ == it.seq().take(it.index()),
    {
        out.push(c);
    }
    out
}

/// Whether `a` comes strictly before `b` in lexicographic order.
pub fn chars_lt(a: &Vec<char>, b: &Vec<char>) -> (r: bool)
    ensures
        r == lex_lt(a@, b@),
{
    let mut i: usize = 0;
    while i < a.len() && i < b.len()
        invariant
            i <= a.len(),
            i <= b.len(),
            lex_lt(a@, b@) == lex_lt_from(a@, b@, i as int),
        decreases a.len() - i,
    {
        if a[i] != b[i] {
            return a[i] < b[i];
        }
        i += 1;
    }
    i < b.len()
}

/// The keys at the positions that `index` names ascend, equal keys allowed.
pub open spec fn ascending_by(keys: Seq<Vec<char>>, index: Seq<usize>) -> bool {
    &&& forall|q: int| 0 <= q < index.len() ==> (#[trigger] index[q]) < keys.len()
    &&& forall|a: int, b: int|
        0 <= a < b < index.len() ==> !lex_lt(
            keys[(#[trigger] index[b]) as int]@,
            keys[(#[trigger] index[a]) as int]@,
        )
}

/// Whether an entry with the key `k` stands before the place of `key`:
/// before an equal key too where `after_equal` is set.
pub open spec fn stands_before(k: Seq<char>, key: Seq<char>, after_equal: bool) -> bool {
    if after_equal {
        !lex_lt(key, k)
    } else {
        lex_lt(k, key)
    }
}

/// What stands before the place of a key is a start of the ascending list.
proof fn lemma_stands_before_is_a_start(a: Seq<char>, b: Seq<char>, key: Seq<char>, after_equal: bool)
    requires
        !lex_lt(b, a),
    ensures
        stands_before(b, key, after_equal) ==> stands_before(a, key, after_equal),
{
    if stands_before(b, key, after_equal) {
        if a != b {
            if !lex_lt(a, b) {
                lemma_lex_connected(a, b);
            }
            if after_equal {
                if lex_lt(key, a) {
                    lemma_lex_transitive(key, a, b);
                }
            } else {
                lemma_lex_transitive(a, b, key);
            }
        }
    }
}

/// The place of `key` in a list of keys that ascends: the number of entries
/// that stand before it. Found by bisection.
pub fn place_in_order(keys: &Vec<Vec<char>>, index: &Vec<usize>, key: &Vec<char>, after_equal: bool) -> (p:
    usize)
    requires
        ascending_by(keys@, index@),
    ensures
        p <= index@.len(),
        forall|q: int|
            0 <= q < p ==> stands_before(keys@[(#[trigger] index@[q]) as int]@, key@, after_equal),
        forall|q: int|
            p <= q < index@.len() ==> !stands_before(
                keys@[(#[trigger] index@[q]) as int]@,
                key@,
                after_equal,
            ),
{
    let mut low: usize = 0;
    let mut high: usize = index.len();
    while low < high
        invariant
            low <= high <= index@.len(),
            ascending_by(keys@, index@),
            forall|q: int|
                0 <= q < low ==> stands_before(
                    keys@[(#[trigger] index@[q]) as int]@,
                    key@,
                    after_equal,
                ),
            forall|q: int|
                high <= q < index@.len() ==> !stands_before(
                    keys@[(#[trigger] index@[q]) as int]@,
                    key@,
                    after_equal,
                ),
        decreases high - low,
    {
        let middle: usize = low + (high - low) / 2;
        let held: &Vec<char> = &keys[index[middle]];
        let before: bool = if after_equal {
            !chars_lt(key, held)
        } else {
            chars_lt(held, key)
        };
        if before {
            assert forall|q: int| 0 <= q < middle + 1 implies stands_before(
                keys@[(#[trigger] index@[q]) as int]@,
                key@,
                after_equal,
            ) by {
                if q < middle {
                    lemma_stands_before_is_a_start(
                        keys@[index@[q] as int]@,
                        held@,
                        key@,
                        after_equal,
                    );
                }
            }
            low = middle + 1;
        } else {
            assert forall|q: int| middle <= q < index@.len() implies !stands_before(
                keys@[(#[trigger] index@[q]) as int]@,
                key@,
                after_equal,
            ) by {
                if middle < q {
                    lemma_stands_before_is_a_start(
                        held@,
                        keys@[index@[q] as int]@,
                        key@,
                        after_equal,
                    );
                }
            }
            high = middle;
        }
    }
    low
}

/// Whether two string slices hold the same text.
pub fn same_text(a: &str, b: &str) -> (r: bool)
    ensures
        r == (a@ == b@),
{
    let x: String = a.to_owned();
    let y: String = b.to_owned();
    x == y
}

/// The ten decimal digits.
pub open spec fn decimal_digits() -> Seq<char> {
    seq!['0', '1', '2', '3', '4', '5', '6', '7', '8', '9']
}

/// `n` written in decimal, without leading zeros.
pub open spec fn decimal_text(n: nat) -> Seq<char>
    decreases n,
{
    if n < 10 {
        seq![decimal_digits()[n as int]]
    } else {
        decimal_text(n / 10).push(decimal_digits()[(n % 10) as int])
    }
}

/// The digit `d` as a text of one character.
fn digit_text(d: u64) -> (out: &'static str)
    requires
        d < 10,
    ensures
        out@ == seq![decimal_digits()[d as int]],
{
    proof {
        reveal_strlit("0");
        reveal_strlit("1");
        reveal_strlit("2");
        reveal_strlit("3");
        reveal_strlit("4");
        reveal_strlit("5");
        reveal_strlit("6");
        reveal_strlit("7");
        reveal_strlit("8");
        reveal_strlit("9");
    }
    let out: &'static str = if d == 0 {
        "0"
    } else if d == 1 {
        "1"
    } else if d == 2 {
        "2"
    } else if d == 3 {
        "3"
    } else if d == 4 {
        "4"
    } else if d == 5 {
        "5"
    } else if d == 6 {
        "6"
    } else if d == 7 {
        "7"
    } else if d == 8 {
        "8"
    } else {
        "9"
    };
    assert(out@ =~= seq![decimal_digits()[d as int]]);
    out
}

/// `n` written in decimal.
pub fn decimal(n: u64) -> (out: String)
    ensures
        out@ == decimal_text(n as nat),
    decreases n,
{
    if n < 10 {
        String::from_str(digit_text(n))
    } else {
        let mut out: String = decimal(n / 10);
        out.append(digit_text(n % 10));
        assert(out@ =~= decimal_text(n as nat));
        out
    }
}

} // verus!
