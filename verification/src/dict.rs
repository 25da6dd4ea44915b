//! The term dictionary of a segment in memory: each term with its number, in the order of the
//! terms.
use vstd::prelude::*;
use vstd::slice::slice_to_vec;
use crate::terms::{relate, Relation};
use crate::terms::{bytes_lt, has_key, keys_ascending, value_of};
use crate::terms::{lemma_lt_irreflexive, lemma_lt_transitive, lemma_value_at};

verus! {

/// Terms with their numbers. Each term occurs once, and they are in ascending order.
pub struct TermDict {
    pub entries: Vec<(Vec<u8>, u32)>,
}

impl View for TermDict {
    type V = Map<Seq<u8>, u32>;

    /// The number of each term.
    open spec fn view(&self) -> Map<Seq<u8>, u32> {
        Map::new(
            |term: Seq<u8>| has_key(self.rows(), term),
            |term: Seq<u8>| value_of(self.rows(), term)->0 as u32,
        )
    }
}

impl TermDict {
    /// The terms with their numbers, in order.
    pub open spec fn rows(self) -> Seq<(Seq<u8>, u64)> {
        self.entries@.map_values(|e: (Vec<u8>, u32)| (e.0@, e.1 as u64))
    }

    pub open spec fn wf(self) -> bool {
        keys_ascending(self.rows())
    }

    /// A dictionary without terms.
    pub fn new() -> (dict: Self)
        ensures
            dict.wf(),
            dict@ == Map::<Seq<u8>, u32>::empty(),
            dict.entries@.len() == 0,
    {
        let dict = TermDict { entries: Vec::new() };
        assert(dict@ =~= Map::<Seq<u8>, u32>::empty());
        dict
    }

    /// Row `i` is in the map.
    pub proof fn lemma_row(self, i: int)
        requires
            self.wf(),
            0 <= i < self.entries@.len(),
        ensures
            self@.contains_key(self.entries@[i].0@),
            self@[self.entries@[i].0@] == self.entries@[i].1,
    {
        lemma_value_at(self.rows(), i);
        assert(self.rows()[i].0 == self.entries@[i].0@);
    }

    /// Each term of the map has a row.
    pub proof fn lemma_has_row(self, term: Seq<u8>) -> (i: int)
        requires
            self.wf(),
            self@.contains_key(term),
        ensures
            0 <= i < self.entries@.len(),
            self.entries@[i].0@ == term,
            self.entries@[i].1 == self@[term],
    {
        let i = choose|i: int| 0 <= i < self.rows().len() && (#[trigger] self.rows()[i]).0 == term;
        self.lemma_row(i);
        i
    }

    /// There are as many terms as rows.
    pub proof fn lemma_size(self)
        requires
            self.wf(),
        ensures
            self@.dom().finite(),
            self@.len() == self.entries@.len(),
    {
        let keys = self.rows().map_values(|e: (Seq<u8>, u64)| e.0);
        assert(keys.no_duplicates()) by {
            assert forall|i: int, j: int|
                0 <= i < keys.len() && 0 <= j < keys.len() && i != j implies keys[i] != keys[j] by {
                lemma_lt_irreflexive(keys[i]);
                if i < j {
                    assert(bytes_lt(self.rows()[i].0, self.rows()[j].0));
                } else {
                    assert(bytes_lt(self.rows()[j].0, self.rows()[i].0));
                }
            }
        }
        keys.unique_seq_to_set();
        assert(keys.to_set() =~= self@.dom()) by {
            assert forall|t: Seq<u8>| keys.to_set().contains(t) <==> self@.dom().contains(t) by {
                if keys.contains(t) {
                    let i = choose|i: int| 0 <= i < keys.len() && keys[i] == t;
                    assert(self.rows()[i].0 == t);
                }
                if self@.dom().contains(t) {
                    let i = self.lemma_has_row(t);
                    assert(keys[i] == t);
                }
            }
        }
        vstd::seq_lib::seq_to_set_is_finite(keys);
    }

    /// Where `term` is, or where it would have to go.
    fn search(&self, term: &[u8]) -> (r: (bool, usize))
        requires
            self.wf(),
        ensures
            r.1 <= self.entries@.len(),
            r.0 ==> r.1 < self.entries@.len() && self.entries@[r.1 as int].0@ == term@,
            !r.0 ==> {
                &&& forall|i: int| 0 <= i < r.1 ==> bytes_lt(#[trigger] self.rows()[i].0, term@)
                &&& forall|i: int|
                    r.1 <= i < self.rows().len() ==> bytes_lt(term@, #[trigger] self.rows()[i].0)
            },
    {
        let mut lo: usize = 0;
        let mut hi: usize = self.entries.len();
        while lo < hi
            invariant
                self.wf(),
                lo <= hi <= self.entries@.len(),
                forall|i: int| 0 <= i < lo ==> bytes_lt(#[trigger] self.rows()[i].0, term@),
                forall|i: int|
                    hi <= i < self.rows().len() ==> bytes_lt(term@, #[trigger] self.rows()[i].0),
            decreases hi - lo,
        {
            let mid: usize = lo + (hi - lo) / 2;
            let ghost here = self.rows()[mid as int].0;
            match relate(self.entries[mid].0.as_slice(), term) {
                Relation::Before => {
                    assert forall|i: int| 0 <= i < mid + 1 implies bytes_lt(
                        #[trigger] self.rows()[i].0,
                        term@,
                    ) by {
                        if i < mid {
                            lemma_lt_transitive(self.rows()[i].0, here, term@);
                        }
                    }
                    lo = mid + 1;
                },
                Relation::After => {
                    assert forall|i: int| mid <= i < self.rows().len() implies bytes_lt(
                        term@,
                        #[trigger] self.rows()[i].0,
                    ) by {
                        if i > mid {
                            lemma_lt_transitive(term@, here, self.rows()[i].0);
                        }
                    }
                    hi = mid;
                },
                Relation::Same => {
                    return (true, mid);
                },
            }
        }
        (false, lo)
    }

    /// A term that lies between two rows is not in the map.
    proof fn lemma_absent(self, term: Seq<u8>, at: int)
        requires
            0 <= at <= self.entries@.len(),
            forall|i: int| 0 <= i < at ==> bytes_lt(#[trigger] self.rows()[i].0, term),
            forall|i: int|
                at <= i < self.rows().len() ==> bytes_lt(term, #[trigger] self.rows()[i].0),
        ensures
            !self@.contains_key(term),
    {
        if has_key(self.rows(), term) {
            let i = choose|i: int|
                0 <= i < self.rows().len() && (#[trigger] self.rows()[i]).0 == term;
            lemma_lt_irreflexive(term);
            assert(i < at || at <= i);
        }
    }

    /// The number of a term.
    pub fn get(&self, term: &[u8]) -> (r: Option<u32>)
        requires
            self.wf(),
        ensures
            r is Some <==> self@.contains_key(term@),
            r matches Some(id) ==> id == self@[term@],
    {
        let (found, at) = self.search(term);
        if found {
            proof {
                self.lemma_row(at as int);
            }
            Some(self.entries[at].1)
        } else {
            proof {
                self.lemma_absent(term@, at as int);
            }
            None
        }
    }

    /// The number of a term, which is `fresh` where the term was not known.
    pub fn intern(&mut self, term: &[u8], fresh: u32) -> (id: u32)
        requires
            old(self).wf(),
        ensures
            final(self).wf(),
            old(self)@.contains_key(term@) ==> final(self)@ == old(self)@,
            !old(self)@.contains_key(term@) ==> final(self)@ == old(self)@.insert(term@, fresh),
            final(self)@.contains_key(term@),
            id == final(self)@[term@],
    {
        let (found, at) = self.search(term);
        if found {
            proof {
                self.lemma_row(at as int);
            }
            return self.entries[at].1;
        }
        proof {
            self.lemma_absent(term@, at as int);
        }
        let ghost before = *self;
        self.entries.insert(at, (slice_to_vec(term), fresh));
        proof {
            let rows = self.rows();
            assert(rows =~= before.rows().insert(at as int, (term@, fresh as u64)));
            assert forall|i: int, j: int| 0 <= i < j < rows.len() implies bytes_lt(
                #[trigger] rows[i].0,
                #[trigger] rows[j].0,
            ) by {
                let a = if i < at {
                    i
                } else {
                    i - 1
                };
                let b = if j < at {
                    j
                } else {
                    j - 1
                };
                if i != at && j != at {
                    assert(bytes_lt(before.rows()[a].0, before.rows()[b].0));
                } else if i == at {
                    assert(bytes_lt(term@, before.rows()[b].0));
                } else {
                    assert(bytes_lt(before.rows()[a].0, term@));
                }
            }
            self.lemma_row(at as int);
            let grown = before@.insert(term@, fresh);
            assert forall|t: Seq<u8>| self@.contains_key(t) <==> grown.contains_key(t) by {
                if self@.contains_key(t) {
                    let i = self.lemma_has_row(t);
                    if i < at {
                        before.lemma_row(i);
                    } else if i > at {
                        before.lemma_row(i - 1);
                    }
                }
                if before@.contains_key(t) {
                    let i = before.lemma_has_row(t);
                    if i < at {
                        self.lemma_row(i);
                    } else {
                        self.lemma_row(i + 1);
                    }
                }
            }
            assert forall|t: Seq<u8>| grown.contains_key(t) implies self@[t] == grown[t] by {
                if t != term@ {
                    let i = before.lemma_has_row(t);
                    if i < at {
                        self.lemma_row(i);
                    } else {
                        self.lemma_row(i + 1);
                    }
                }
            }
            assert(self@ =~= grown);
        }
        fresh
    }
}

} // verus!
