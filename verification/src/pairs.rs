//! A table from pairs of strings to positions.

use vstd::prelude::*;
use crate::set::{StringSet, distinct};

verus! {

/// A table that finds a position by a pair of strings. It is kept by the
/// first string of the pair, and under each first string by the second.
pub struct PairIndex {
    firsts: StringSet,
    seconds: Vec<StringSet>,
    slots: Vec<Vec<usize>>,
}

/// The position at which `list` holds `s`.
pub open spec fn place(list: Seq<Seq<char>>, s: Seq<char>) -> int {
    choose|i: int| 0 <= i < list.len() && list[i] == s
}

/// A list without repetitions holds a text at one position only.
pub proof fn lemma_place(list: Seq<Seq<char>>, i: int)
    requires
        distinct(list),
        0 <= i < list.len(),
    ensures
        place(list, list[i]) == i,
{
    let j = place(list, list[i]);
    if j < i {
        assert(list[j] != list[i]);
    }
    if i < j {
        assert(list[i] != list[j]);
    }
}

impl PairIndex {
    /// Every first string has its own set of second strings, and every
    /// second string its position.
    pub closed spec fn wf(&self) -> bool {
        &&& self.firsts.wf()
        &&& self.seconds@.len() == self.firsts.list().len()
        &&& self.slots@.len() == self.firsts.list().len()
        &&& forall|i: int|
            0 <= i < self.seconds@.len() ==> (#[trigger] self.seconds@[i]).wf() && self.slots@[i]@.len()
                == self.seconds@[i].list().len()
    }

    /// The position found by the pair `(a, b)`, if the table holds one.
    pub closed spec fn lookup(&self, a: Seq<char>, b: Seq<char>) -> Option<usize> {
        if self.firsts.has(a) && self.seconds@[place(self.firsts.list(), a)].has(b) {
            Some(
                self.slots@[place(self.firsts.list(), a)]@[place(
                    self.seconds@[place(self.firsts.list(), a)].list(),
                    b,
                )],
            )
        } else {
            None
        }
    }

    /// The table that holds nothing.
    pub fn new() -> (table: PairIndex)
        ensures
            table.wf(),
            forall|a: Seq<char>, b: Seq<char>| table.lookup(a, b) is None,
    {
        PairIndex { firsts: StringSet::new(), seconds: Vec::new(), slots: Vec::new() }
    }

    /// The position found by the pair `(a, b)`, if the table holds one.
    pub fn get(&self, a: &str, b: &str) -> (found: Option<usize>)
        requires
            self.wf(),
        ensures
            found == self.lookup(a@, b@),
    {
        match self.firsts.position(a) {
            Some(i) => {
                proof {
                    lemma_place(self.firsts.list(), i as int);
                }
                match self.seconds[i].position(b) {
                    Some(j) => {
                        proof {
                            lemma_place(self.seconds@[i as int].list(), j as int);
                        }
                        Some(self.slots[i][j])
                    },
                    None => None,
                }
            },
            None => None,
        }
    }

    /// Lets the pair `(a, b)`, which the table does not hold, find the position `v`.
    pub fn insert(&mut self, a: &str, b: &str, v: usize)
        requires
            old(self).wf(),
            old(self).lookup(a@, b@) is None,
        ensures
            final(self).wf(),
            forall|x: Seq<char>, y: Seq<char>| #![trigger final(self).lookup(x, y)]
                final(self).lookup(x, y) == if x == a@ && y == b@ {
                    Some(v)
                } else {
                    old(self).lookup(x, y)
                },
    {
        let ghost firsts0 = self.firsts.list();
        let ghost seconds0 = self.seconds@;
        let ghost slots0 = self.slots@;
        let ghost before = *self;
        match self.firsts.position(a) {
            Some(i) => {
                proof {
                    lemma_place(firsts0, i as int);
                }
                let ghost list0 = self.seconds[i as int].list();
                let added = self.seconds[i].insert(b.to_owned());
                self.slots[i].push(v);
                proof {
                    let list1 = self.seconds@[i as int].list();
                    assert(list1 == list0.push(b@));
                    assert forall|k: int| 0 <= k < self.seconds@.len() implies (#[trigger] self.seconds@[k]).wf()
                        && self.slots@[k]@.len() == self.seconds@[k].list().len() by {
                        if k != i {
                            assert(self.seconds@[k] == seconds0[k]);
                            assert(self.slots@[k] == slots0[k]);
                        }
                    }
                    assert forall|x: Seq<char>, y: Seq<char>| #![trigger self.lookup(x, y)]
                        self.lookup(x, y) == if x == a@ && y == b@ {
                            Some(v)
                        } else {
                            before.lookup(x, y)
                        } by {
                        if self.firsts.has(x) {
                            let ix = place(firsts0, x);
                            if ix != i {
                                assert(self.seconds@[ix] == seconds0[ix]);
                                assert(self.slots@[ix] == slots0[ix]);
                            } else {
                                assert(x == a@);
                                crate::set::lemma_push_contains(list0, b@, y);
                                if y == b@ {
                                    lemma_place(list1, list0.len() as int);
                                } else if list0.contains(y) {
                                    let jy = place(list0, y);
                                    assert(list1[jy] == y);
                                    lemma_place(list1, jy);
                                    assert(self.slots@[i as int]@[jy] == slots0[i as int]@[jy]);
                                }
                            }
                        }
                    }
                }
            },
            None => {
                let at = self.firsts.len();
                let added = self.firsts.insert(a.to_owned());
                let mut set = StringSet::new();
                let ghost empty = set.list();
                proof {
                    assert(empty =~= Seq::<Seq<char>>::empty());
                }
                let added = set.insert(b.to_owned());
                let mut row: Vec<usize> = Vec::new();
                row.push(v);
                self.seconds.push(set);
                self.slots.push(row);
                proof {
                    let firsts1 = self.firsts.list();
                    assert(firsts1 == firsts0.push(a@));
                    assert(set.list() == Seq::<Seq<char>>::empty().push(b@));
                    assert forall|k: int| 0 <= k < self.seconds@.len() implies (#[trigger] self.seconds@[k]).wf()
                        && self.slots@[k]@.len() == self.seconds@[k].list().len() by {
                        if k < seconds0.len() {
                            assert(self.seconds@[k] == seconds0[k]);
                            assert(self.slots@[k] == slots0[k]);
                        }
                    }
                    assert forall|x: Seq<char>, y: Seq<char>| #![trigger self.lookup(x, y)]
                        self.lookup(x, y) == if x == a@ && y == b@ {
                            Some(v)
                        } else {
                            before.lookup(x, y)
                        } by {
                        crate::set::lemma_push_contains(firsts0, a@, x);
                        if x == a@ {
                            lemma_place(firsts1, at as int);
                            crate::set::lemma_push_contains(Seq::<Seq<char>>::empty(), b@, y);
                            if y == b@ {
                                lemma_place(set.list(), 0);
                            }
                        } else if firsts0.contains(x) {
                            let ix = place(firsts0, x);
                            assert(firsts1[ix] == x);
                            lemma_place(firsts1, ix);
                            assert(self.seconds@[ix] == seconds0[ix]);
                            assert(self.slots@[ix] == slots0[ix]);
                        }
                    }
                }
            },
        }
    }
}

} // verus!
