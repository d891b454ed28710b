//! Sets of strings, kept in the order in which their members came.

use vstd::hash_map::StringHashMap;
use vstd::prelude::*;

verus! {

/// A set of strings. Its members are kept in the order in which they were
/// put in, each once, and are found by their texts.
pub struct StringSet {
    items: Vec<String>,
    slots: StringHashMap<usize>,
}

/// The texts of `items`, in their order.
pub open spec fn texts(items: Seq<String>) -> Seq<Seq<char>> {
    items.map_values(|s: String| s@)
}

/// No text comes twice.
pub open spec fn distinct(list: Seq<Seq<char>>) -> bool {
    forall|i: int, j: int| 0 <= i < j < list.len() ==> #[trigger] list[i] != #[trigger] list[j]
}

impl StringSet {
    /// The members, in the order in which they were put in.
    pub closed spec fn list(&self) -> Seq<Seq<char>> {
        texts(self.items@)
    }

    /// Every member is found at its position by its text, and nothing else is found.
    pub closed spec fn indexed(&self) -> bool {
        &&& forall|i: int|
            0 <= i < self.items@.len() ==> self.slots@.dom().contains((#[trigger] self.items@[i])@)
                && self.slots@[self.items@[i]@] == i
        &&& forall|k: Seq<char>| #[trigger]
            self.slots@.dom().contains(k) ==> self.slots@[k] < self.items@.len() && self.items@[self.slots@[k] as int]@ == k
    }

    /// No member comes twice, and every member is found by its text.
    pub open spec fn wf(&self) -> bool {
        distinct(self.list()) && self.indexed()
    }

    /// Whether `s` is a member.
    pub open spec fn has(&self, s: Seq<char>) -> bool {
        self.list().contains(s)
    }

    /// The set without members.
    pub fn new() -> (set: StringSet)
        ensures
            set.wf(),
            set.list().len() == 0,
    {
        StringSet { items: Vec::new(), slots: StringHashMap::new() }
    }

    /// The number of members.
    pub fn len(&self) -> (len: usize)
        ensures
            len == self.list().len(),
    {
        self.items.len()
    }

    /// The member at position `i`.
    pub fn get(&self, i: usize) -> (s: &String)
        requires
            i < self.list().len(),
        ensures
            s@ == self.list()[i as int],
    {
        &self.items[i]
    }

    /// The position of `s` among the members, if it is one.
    pub fn position(&self, s: &str) -> (found: Option<usize>)
        requires
            self.wf(),
        ensures
            match found {
                Some(i) => i < self.list().len() && self.list()[i as int] == s@,
                None => !self.has(s@),
            },
    {
        match self.slots.get(s) {
            Some(i) => Some(*i),
            None => {
                proof {
                    if self.has(s@) {
                        let j = choose|j: int| 0 <= j < self.list().len() && self.list()[j] == s@;
                        assert(self.items@[j]@ == s@);
                    }
                }
                None
            },
        }
    }

    /// Whether `s` is a member.
    pub fn contains(&self, s: &str) -> (found: bool)
        requires
            self.wf(),
        ensures
            found == self.has(s@),
    {
        self.position(s).is_some()
    }

    /// Puts `s` in, unless it is a member already. Says whether it was put in.
    pub fn insert(&mut self, s: String) -> (added: bool)
        requires
            old(self).wf(),
        ensures
            final(self).wf(),
            added == !old(self).has(s@),
            final(self).list() == if old(self).has(s@) {
                old(self).list()
            } else {
                old(self).list().push(s@)
            },
    {
        if self.contains(s.as_str()) {
            false
        } else {
            let ghost before = self.list();
            let ghost old_items = self.items@;
            let ghost old_slots = self.slots@;
            let at = self.items.len();
            let key = s.clone();
            self.items.push(s);
            self.slots.insert(key, at);
            proof {
                assert(self.list() =~= before.push(s@));
                assert forall|i: int| 0 <= i < self.items@.len() implies self.slots@.dom().contains(
                    (#[trigger] self.items@[i])@,
                ) && self.slots@[self.items@[i]@] == i by {
                    if i < old_items.len() {
                        assert(self.items@[i] == old_items[i]);
                        assert(old_slots.dom().contains(old_items[i]@));
                        assert(before[i] == old_items[i]@);
                        if old_items[i]@ == s@ {
                            assert(before.contains(s@));
                        }
                    }
                }
                assert forall|k: Seq<char>| #[trigger] self.slots@.dom().contains(k) implies self.slots@[k]
                    < self.items@.len() && self.items@[self.slots@[k] as int]@ == k by {
                    if k != s@ {
                        assert(old_slots.dom().contains(k));
                        assert(self.items@[old_slots[k] as int] == old_items[old_slots[k] as int]);
                    }
                }
                assert forall|i: int, j: int| 0 <= i < j < self.list().len() implies #[trigger] self.list()[i]
                    != #[trigger] self.list()[j] by {
                    if j == before.len() {
                        assert(before[i] != s@) by {
                            if before[i] == s@ {
                                assert(before.contains(s@));
                            }
                        }
                    } else {
                        assert(before[i] != before[j]);
                    }
                }
            }
            true
        }
    }

    /// The members as a set of texts.
    pub open spec fn members(&self) -> Set<Seq<char>> {
        Set::new(|s: Seq<char>| self.has(s))
    }

    /// Puts the members of `other` in.
    pub fn union_with(&mut self, other: &StringSet)
        requires
            old(self).wf(),
        ensures
            final(self).wf(),
            forall|s: Seq<char>| #![trigger final(self).has(s)] final(self).has(s) == (old(self).has(s) || other.has(s)),
            final(self).members() == old(self).members().union(other.members()),
    {
        let ghost start = self.list();
        let mut k: usize = 0;
        while k < other.items.len()
            invariant
                k <= other.items@.len(),
                self.wf(),
                forall|s: Seq<char>| #![trigger self.has(s)]
                    self.has(s) == (start.contains(s) || exists|m: int| 0 <= m < k && #[trigger] other.list()[m] == s),
            decreases other.items@.len() - k,
        {
            let ghost before = self.list();
            let ghost prior = *self;
            let item = other.items[k].clone();
            assert(item@ == other.list()[k as int]);
            let added = self.insert(item);
            proof {
                assert forall|s: Seq<char>| #![trigger self.has(s)]
                    self.has(s) == (start.contains(s) || exists|m: int| 0 <= m < k + 1 && #[trigger] other.list()[m] == s) by {
                    lemma_push_contains(before, other.list()[k as int], s);
                    assert(prior.has(s) == (start.contains(s) || exists|m: int|
                        0 <= m < k && #[trigger] other.list()[m] == s));
                    if exists|m: int| 0 <= m < k + 1 && #[trigger] other.list()[m] == s {
                        let m = choose|m: int| 0 <= m < k + 1 && #[trigger] other.list()[m] == s;
                        if m < k {
                            assert(0 <= m < k && other.list()[m] == s);
                        }
                    }
                    if exists|m: int| 0 <= m < k && #[trigger] other.list()[m] == s {
                        let m = choose|m: int| 0 <= m < k && #[trigger] other.list()[m] == s;
                        assert(0 <= m < k + 1 && other.list()[m] == s);
                    }
                    if s == other.list()[k as int] {
                        assert(0 <= k < k + 1 && other.list()[k as int] == s);
                    }
                }
            }
            k += 1;
        }
        proof {
            assert forall|s: Seq<char>| self.has(s) == (start.contains(s) || other.has(s)) by {
                if other.has(s) {
                    let m = choose|m: int| 0 <= m < other.list().len() && other.list()[m] == s;
                    assert(0 <= m < k && other.list()[m] == s);
                }
            }
            assert(self.members() =~= old(self).members().union(other.members()));
        }
    }

    /// The members that are also members of `other`.
    pub fn intersection(&self, other: &StringSet) -> (out: StringSet)
        requires
            self.wf(),
            other.wf(),
        ensures
            out.wf(),
            forall|s: Seq<char>| #![trigger out.has(s)] out.has(s) == (self.has(s) && other.has(s)),
            out.members() == self.members().intersect(other.members()),
    {
        let mut out = StringSet::new();
        let mut k: usize = 0;
        proof {
            assert(out.list() =~= Seq::<Seq<char>>::empty());
        }
        while k < self.items.len()
            invariant
                k <= self.items@.len(),
                self.wf(),
                other.wf(),
                out.wf(),
                forall|s: Seq<char>|
                    out.has(s) == (other.has(s) && exists|m: int| 0 <= m < k && #[trigger] self.list()[m] == s),
            decreases self.items@.len() - k,
        {
            let ghost before = out.list();
            let ghost here = self.list()[k as int];
            if other.contains(self.items[k].as_str()) {
                let item = self.items[k].clone();
                assert(item@ == here);
                let added = out.insert(item);
            }
            proof {
                assert forall|s: Seq<char>|
                    out.has(s) == (other.has(s) && exists|m: int| 0 <= m < k + 1 && #[trigger] self.list()[m] == s) by {
                    lemma_push_contains(before, here, s);
                    assert(before.contains(s) == (other.has(s) && exists|m: int|
                        0 <= m < k && #[trigger] self.list()[m] == s));
                    if exists|m: int| 0 <= m < k + 1 && #[trigger] self.list()[m] == s {
                        let m = choose|m: int| 0 <= m < k + 1 && #[trigger] self.list()[m] == s;
                        if m < k {
                            assert(0 <= m < k && self.list()[m] == s);
                        }
                    }
                    if exists|m: int| 0 <= m < k && #[trigger] self.list()[m] == s {
                        let m = choose|m: int| 0 <= m < k && #[trigger] self.list()[m] == s;
                        assert(0 <= m < k + 1 && self.list()[m] == s);
                    }
                    if s == here {
                        assert(0 <= k < k + 1 && self.list()[k as int] == s);
                    }
                }
            }
            k += 1;
        }
        proof {
            assert forall|s: Seq<char>| out.has(s) == (self.has(s) && other.has(s)) by {
                if self.has(s) {
                    let m = choose|m: int| 0 <= m < self.list().len() && self.list()[m] == s;
                    assert(0 <= m < k && self.list()[m] == s);
                }
            }
            assert(out.members() =~= self.members().intersect(other.members()));
        }
        out
    }

    /// A set with the same members in the same order.
    pub fn copy(&self) -> (set: StringSet)
        requires
            self.wf(),
        ensures
            set.wf(),
            set.list() == self.list(),
    {
        let mut set = StringSet::new();
        let mut i: usize = 0;
        proof {
            assert(set.list() =~= self.list().subrange(0, 0));
        }
        while i < self.items.len()
            invariant
                self.wf(),
                i <= self.items@.len(),
                set.wf(),
                set.list() == self.list().subrange(0, i as int),
            decreases self.items@.len() - i,
        {
            let item: &String = &self.items[i];
            let copied = item.clone();
            assert(copied@ == self.list()[i as int]);
            proof {
                if set.has(copied@) {
                    let j = choose|j: int| 0 <= j < set.list().len() && set.list()[j] == copied@;
                    assert(self.list()[j] != self.list()[i as int]);
                }
            }
            let added = set.insert(copied);
            i += 1;
            assert(set.list() =~= self.list().subrange(0, i as int));
        }
        assert(self.list().subrange(0, i as int) =~= self.list());
        set
    }

    /// The members as a list of strings, in their order.
    pub fn to_vec(&self) -> (out: Vec<String>)
        ensures
            texts(out@) == self.list(),
    {
        let mut out: Vec<String> = Vec::new();
        let mut i: usize = 0;
        while i < self.items.len()
            invariant
                i <= self.items@.len(),
                texts(out@) == self.list().subrange(0, i as int),
            decreases self.items@.len() - i,
        {
            let item: &String = &self.items[i];
            let ghost before = out@;
            let copied = item.clone();
            assert(copied@ == self.list()[i as int]);
            out.push(copied);
            i += 1;
            assert(texts(out@) =~= texts(before).push(copied@));
            assert(texts(out@) =~= self.list().subrange(0, i as int));
        }
        assert(self.list().subrange(0, i as int) =~= self.list());
        out
    }
}

/// A member of the list extended by `s` is `s` or a member of the list.
pub proof fn lemma_push_contains(list: Seq<Seq<char>>, s: Seq<char>, t: Seq<char>)
    ensures
        list.push(s).contains(t) <==> (list.contains(t) || t == s),
{
    if list.push(s).contains(t) {
        let i = choose|i: int| 0 <= i < list.push(s).len() && list.push(s)[i] == t;
        if i < list.len() {
            assert(list[i] == t);
        }
    }
    if list.contains(t) {
        let i = choose|i: int| 0 <= i < list.len() && list[i] == t;
        assert(list.push(s)[i] == t);
    }
    if t == s {
        assert(list.push(s)[list.len() as int] == t);
    }
}

} // verus!
