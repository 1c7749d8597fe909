//! A table from texts to numbers, searched by bisection: the texts are held
//! in the order in which they came, and beside them the order of their
//! characters.

use crate::text::{
    ascending_by, chars_of, chars_lt, lemma_lex_asymmetric, lemma_lex_connected,
    lemma_lex_irreflexive, lemma_lex_transitive, lex_lt, place_in_order, stands_before,
};
use vstd::prelude::*;

verus! {

/// What a table holds: the texts as characters, their numbers, and the
/// positions of the texts in ascending order.
struct Columns {
    keys: Vec<Vec<char>>,
    values: Vec<usize>,
    order: Vec<usize>,
}

/// A table from texts to numbers. No text occurs twice.
pub struct TextMap {
    columns: Columns,
}

impl View for Columns {
    type V = Seq<(Seq<char>, usize)>;

    closed spec fn view(&self) -> Seq<(Seq<char>, usize)> {
        Seq::new(self.keys@.len(), |i: int| (self.keys@[i]@, self.values@[i]))
    }
}

impl View for TextMap {
    type V = Seq<(Seq<char>, usize)>;

    /// The texts with their numbers, in the order in which they were put in.
    closed spec fn view(&self) -> Seq<(Seq<char>, usize)> {
        self.columns@
    }
}

/// No text occurs twice.
pub open spec fn has_distinct_keys(pairs: Seq<(Seq<char>, usize)>) -> bool {
    forall|i: int, j: int| 0 <= i < j < pairs.len() ==> (#[trigger] pairs[i]).0 != (#[trigger] pairs[j]).0
}

/// No entry is for the text `key`.
pub open spec fn lacks_key(pairs: Seq<(Seq<char>, usize)>, key: Seq<char>) -> bool {
    forall|i: int| 0 <= i < pairs.len() ==> (#[trigger] pairs[i]).0 != key
}

impl Columns {
    /// `order` names every position once, in strictly ascending order of the
    /// texts.
    spec fn wf(&self) -> bool {
        &&& self.values@.len() == self.keys@.len()
        &&& self.order@.len() == self.keys@.len()
        &&& forall|q: int| 0 <= q < self.order@.len() ==> (#[trigger] self.order@[q]) < self.keys@.len()
        &&& forall|a: int, b: int|
            0 <= a < b < self.order@.len() ==> lex_lt(
                self.keys@[(#[trigger] self.order@[a]) as int]@,
                self.keys@[(#[trigger] self.order@[b]) as int]@,
            )
        &&& forall|j: usize| j < self.keys@.len() ==> #[trigger] self.order@.contains(j)
    }

    fn new() -> (out: Columns)
        ensures
            out.wf(),
            out@ == Seq::<(Seq<char>, usize)>::empty(),
    {
        let out = Columns { keys: Vec::new(), values: Vec::new(), order: Vec::new() };
        assert(out@ =~= Seq::empty());
        out
    }

    proof fn lemma_keys_are_distinct(&self)
        requires
            self.wf(),
        ensures
            has_distinct_keys(self@),
    {
        assert(self.keys@.len() == self.keys.len());
        assert forall|i: int, j: int| 0 <= i < j < self@.len() implies (#[trigger] self@[i]).0 != (
        #[trigger] self@[j]).0 by {
            assert(self.order@.contains(i as usize) && self.order@.contains(j as usize));
            let a = choose|a: int| 0 <= a < self.order@.len() && self.order@[a] == i as usize;
            let b = choose|b: int| 0 <= b < self.order@.len() && self.order@[b] == j as usize;
            if a < b {
                assert(lex_lt(self.keys@[i]@, self.keys@[j]@));
            } else {
                assert(lex_lt(self.keys@[j]@, self.keys@[i]@));
            }
            lemma_lex_irreflexive(self.keys@[i]@);
        }
    }

    /// Where the text `key` stands in the order, and whether it is there.
    fn locate(&self, key: &Vec<char>) -> (out: (usize, bool))
        requires
            self.wf(),
        ensures
            out.0 <= self.order@.len(),
            forall|q: int|
                0 <= q < out.0 ==> lex_lt(self.keys@[(#[trigger] self.order@[q]) as int]@, key@),
            out.1 ==> out.0 < self.order@.len() && self.keys@[self.order@[out.0 as int] as int]@ == key@,
            !out.1 ==> forall|q: int|
                out.0 <= q < self.order@.len() ==> lex_lt(
                    key@,
                    self.keys@[(#[trigger] self.order@[q]) as int]@,
                ),
    {
        proof {
            assert forall|a: int, b: int| 0 <= a < b < self.order@.len() implies !lex_lt(
                self.keys@[(#[trigger] self.order@[b]) as int]@,
                self.keys@[(#[trigger] self.order@[a]) as int]@,
            ) by {
                lemma_lex_asymmetric(
                    self.keys@[self.order@[a] as int]@,
                    self.keys@[self.order@[b] as int]@,
                );
            }
            assert(ascending_by(self.keys@, self.order@));
        }
        let p: usize = place_in_order(&self.keys, &self.order, key, false);
        let found: bool = p < self.order.len() && !chars_lt(key, &self.keys[self.order[p]]);
        proof {
            if p < self.order@.len() {
                let at = self.keys@[self.order@[p as int] as int]@;
                assert(!stands_before(at, key@, false));
                if found {
                    lemma_lex_connected(at, key@);
                }
            }
            if !found {
                assert forall|q: int| p <= q < self.order@.len() implies lex_lt(
                    key@,
                    self.keys@[(#[trigger] self.order@[q]) as int]@,
                ) by {
                    let first = self.keys@[self.order@[p as int] as int]@;
                    assert(lex_lt(key@, first));
                    if q > p {
                        lemma_lex_transitive(key@, first, self.keys@[self.order@[q] as int]@);
                    }
                }
            }
        }
        (p, found)
    }

    fn get(&self, key: &str) -> (found: Option<usize>)
        requires
            self.wf(),
        ensures
            match found {
                Some(value) => exists|i: int|
                    0 <= i < self@.len() && #[trigger] self@[i] == (key@, value),
                None => lacks_key(self@, key@),
            },
    {
        let chars: Vec<char> = chars_of(key);
        let (p, found) = self.locate(&chars);
        if found {
            let at: usize = self.order[p];
            assert(self@[at as int] == (key@, self.values@[at as int]));
            Some(self.values[at])
        } else {
            proof {
                assert(self.keys@.len() == self.keys.len());
                assert forall|i: int| 0 <= i < self@.len() implies (#[trigger] self@[i]).0 != key@ by {
                    assert(self.order@.contains(i as usize));
                    let q = choose|q: int| 0 <= q < self.order@.len() && self.order@[q] == i as usize;
                    if q < p {
                        assert(lex_lt(self.keys@[self.order@[q] as int]@, key@));
                    } else {
                        assert(lex_lt(key@, self.keys@[self.order@[q] as int]@));
                    }
                    lemma_lex_irreflexive(key@);
                }
            }
            None
        }
    }

    fn insert(&mut self, key: &str, value: usize)
        requires
            old(self).wf(),
            lacks_key(old(self)@, key@),
        ensures
            final(self).wf(),
            final(self)@ == old(self)@.push((key@, value)),
    {
        let chars: Vec<char> = chars_of(key);
        let (p, found) = self.locate(&chars);
        proof {
            if found {
                let at = self.order@[p as int] as int;
                assert(self@[at].0 == key@);
            }
        }
        let ghost keys = self.keys@;
        let ghost order = self.order@;
        let at: usize = self.keys.len();
        self.keys.push(chars);
        self.values.push(value);
        self.order.insert(p, at);
        proof {
            assert(self@ =~= old(self)@.push((key@, value)));
            assert forall|q: int| 0 <= q < self.order@.len() implies (#[trigger] self.order@[q])
                < self.keys@.len() by {
                if q < p {
                    assert(self.order@[q] == order[q]);
                } else if q > p {
                    assert(self.order@[q] == order[q - 1]);
                }
            }
            assert forall|a: int, b: int| 0 <= a < b < self.order@.len() implies lex_lt(
                self.keys@[(#[trigger] self.order@[a]) as int]@,
                self.keys@[(#[trigger] self.order@[b]) as int]@,
            ) by {
                let x: int = if a < p {
                    a
                } else {
                    a - 1
                };
                let y: int = if b < p {
                    b
                } else {
                    b - 1
                };
                if a != p {
                    assert(self.order@[a] == order[x]);
                    assert(self.keys@[order[x] as int] == keys[order[x] as int]);
                }
                if b != p {
                    assert(self.order@[b] == order[y]);
                    assert(self.keys@[order[y] as int] == keys[order[y] as int]);
                }
            }
            assert forall|j: usize| j < self.keys@.len() implies #[trigger] self.order@.contains(j) by {
                if j == at {
                    assert(self.order@[p as int] == at);
                } else {
                    assert(order.contains(j));
                    let q = choose|q: int| 0 <= q < order.len() && order[q] == j;
                    if q < p {
                        assert(self.order@[q] == order[q]);
                    } else {
                        assert(self.order@[q + 1] == order[q]);
                    }
                }
            }
        }
    }
}

impl TextMap {
    #[verifier::type_invariant]
    spec fn sound(self) -> bool {
        self.columns.wf()
    }

    /// An empty table.
    pub fn new() -> (out: TextMap)
        ensures
            out@ == Seq::<(Seq<char>, usize)>::empty(),
    {
        TextMap { columns: Columns::new() }
    }

    /// The number of texts.
    pub fn len(&self) -> (n: usize)
        ensures
            n == self@.len(),
    {
        self.columns.keys.len()
    }

    /// States what every table satisfies: no text occurs twice.
    pub fn keys_are_distinct(&self)
        ensures
            has_distinct_keys(self@),
    {
        proof {
            use_type_invariant(self);
            self.columns.lemma_keys_are_distinct();
        }
    }

    /// The number of the text `key`, if the table holds it.
    pub fn get(&self, key: &str) -> (found: Option<usize>)
        ensures
            match found {
                Some(value) => exists|i: int|
                    0 <= i < self@.len() && #[trigger] self@[i] == (key@, value),
                None => lacks_key(self@, key@),
            },
    {
        proof {
            use_type_invariant(self);
        }
        let found: Option<usize> = self.columns.get(key);
        proof {
            if let Some(value) = found {
                let i = choose|i: int|
                    0 <= i < self.columns@.len() && #[trigger] self.columns@[i] == (key@, value);
                assert(self@[i] == (key@, value));
            }
        }
        found
    }

    /// Puts in the text `key`, which the table lacks, with its number.
    pub fn insert(&mut self, key: &str, value: usize)
        requires
            lacks_key(old(self)@, key@),
        ensures
            final(self)@ == old(self)@.push((key@, value)),
    {
        proof {
            use_type_invariant(&*self);
        }
        let mut columns: Columns = Columns::new();
        core::mem::swap(&mut self.columns, &mut columns);
        columns.insert(key, value);
        core::mem::swap(&mut self.columns, &mut columns);
    }
}

} // verus!
