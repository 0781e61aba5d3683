//! The identifier map: external string ids and dense internal numbers.
//!
//! The map keeps two tables, from id to number and from number to id, and
//! changes both on every insert and removal.

use std::collections::HashMap;
use vstd::prelude::*;
use crate::assoc::{
    assoc_distinct, assoc_get, assoc_map, lemma_assoc_absent, lemma_assoc_found,
    lemma_assoc_insert_at, lemma_assoc_len, lemma_assoc_push, lemma_assoc_remove,
};
use crate::codec::text_eq;
use crate::error::Error;

verus! {

broadcast use vstd::std_specs::hash::group_hash_axioms;

/// The pairs of the id-to-number table as mathematical values.
pub open spec fn name_pairs(v: Seq<(String, u32)>) -> Seq<(Seq<char>, u32)> {
    Seq::new(v.len(), |i: int| (v[i].0@, v[i].1))
}

/// The pairs of the number-to-id table as mathematical values.
pub open spec fn number_pairs(v: Seq<(u32, String)>) -> Seq<(u32, Seq<char>)> {
    Seq::new(v.len(), |i: int| (v[i].0, v[i].1@))
}

/// Each pair turned round: id first, number second.
pub open spec fn turned(v: Seq<(u32, Seq<char>)>) -> Seq<(Seq<char>, u32)> {
    Seq::new(v.len(), |i: int| (v[i].1, v[i].0))
}

/// Each pair turned back: number first, id second.
pub open spec fn unturned(v: Seq<(Seq<char>, u32)>) -> Seq<(u32, Seq<char>)> {
    Seq::new(v.len(), |i: int| (v[i].1, v[i].0))
}

/// The next number after reading `pairs` in order, starting from `start`:
/// the largest of `start` and each number plus one, wrapping at `u32::MAX`.
pub open spec fn next_after(pairs: Seq<(u32, Seq<char>)>, start: u32) -> u32
    decreases pairs.len(),
{
    if pairs.len() == 0 {
        start
    } else {
        let before = next_after(pairs.drop_last(), start);
        let one_past = if pairs.last().0 == u32::MAX {
            0u32
        } else {
            (pairs.last().0 + 1) as u32
        };
        if before >= one_past {
            before
        } else {
            one_past
        }
    }
}

/// Whether the two tables are each other's inverse: a number that has an
/// id is the number of that id, and an id that has a number is the id of
/// that number.
pub open spec fn two_way(forward: Map<Seq<char>, u32>, backward: Map<u32, Seq<char>>) -> bool {
    &&& forall|n: u32| #[trigger]
        backward.contains_key(n) ==> forward.contains_key(backward[n]) && forward[backward[n]] == n
    &&& forall|s: Seq<char>| #[trigger]
        forward.contains_key(s) ==> backward.contains_key(forward[s]) && backward[forward[s]] == s
}

/// Whether the numbers of the pairs go up from pair to pair.
pub open spec fn numbers_ascend(pairs: Seq<(u32, Seq<char>)>) -> bool {
    forall|i: int, j: int| 0 <= i < j < pairs.len() ==> (#[trigger] pairs[i]).0 < (#[trigger] pairs[j]).0
}

/// Two-way mapping between external string ids and internal `u32` numbers.
///
/// The ids are kept with their numbers in the order they came; the
/// numbers lead back to the ids through a hash map.
#[derive(Debug, Clone)]
pub struct IdMapping {
    by_name: Vec<(String, u32)>,
    by_number: HashMap<u32, String>,
    next_id: u32,
}

impl IdMapping {
    /// The table from external id to internal number.
    pub closed spec fn forward(&self) -> Map<Seq<char>, u32> {
        assoc_map(name_pairs(self.by_name@))
    }

    /// The table from internal number to external id.
    pub closed spec fn backward(&self) -> Map<u32, Seq<char>> {
        Map::new(|n: u32| self.by_number@.contains_key(n), |n: u32| self.by_number@[n]@)
    }

    /// The pairs of number and id, in the order the ids are kept.
    pub closed spec fn pairs(&self) -> Seq<(u32, Seq<char>)> {
        unturned(name_pairs(self.by_name@))
    }

    /// The pairs of the id-to-number table, in the order they are kept.
    pub closed spec fn names(&self) -> Seq<(Seq<char>, u32)> {
        name_pairs(self.by_name@)
    }

    /// The number that the next new id gets.
    pub closed spec fn upcoming(&self) -> u32 {
        self.next_id
    }

    /// The mapping's invariant: no id and no number is held twice; the
    /// numbers lead back to the ids that have them; and every number held
    /// is below the next number, but for `u32::MAX`, which has no number
    /// behind it.
    pub closed spec fn wf(&self) -> bool {
        &&& assoc_distinct(name_pairs(self.by_name@))
        &&& assoc_distinct(self.pairs())
        &&& self.backward() == assoc_map(self.pairs())
        &&& two_way(self.forward(), self.backward())
        &&& forall|n: u32| #[trigger]
            self.backward().contains_key(n) ==> n < self.next_id || n == u32::MAX
    }

    /// In a well-formed mapping the two tables are each other's inverse
    /// and have the same number of pairs, every number held is below the
    /// next number unless it is `u32::MAX`, and the next number is not
    /// taken unless it is `u32::MAX`.
    pub proof fn law_two_way(&self)
        requires
            self.wf(),
        ensures
            two_way(self.forward(), self.backward()),
            self.pairs().len() == self.names().len(),
            assoc_distinct(self.pairs()),
            assoc_distinct(self.names()),
            assoc_distinct(turned(self.pairs())),
            forall|n: u32| #[trigger]
                self.backward().contains_key(n) ==> n < self.upcoming() || n == u32::MAX,
            self.upcoming() < u32::MAX ==> !self.backward().contains_key(self.upcoming()),
    {
        let pairs = self.pairs();
        let t = turned(pairs);
        assert forall|i: int, j: int| 0 <= i < j < t.len() implies (#[trigger] t[i]).0 != (
        #[trigger] t[j]).0 by {
            lemma_assoc_found(pairs, i);
            lemma_assoc_found(pairs, j);
            assert(self.backward().contains_key(pairs[i].0));
            assert(self.backward().contains_key(pairs[j].0));
            assert(pairs[i].0 != pairs[j].0);
        }
    }

    /// The tables are those of the kept pairs, which hold no key twice, and
    /// the id-to-number table has as many keys as pairs.
    pub proof fn lemma_tables(&self)
        requires
            self.wf(),
        ensures
            assoc_distinct(self.pairs()),
            assoc_distinct(self.names()),
            self.backward() == assoc_map(self.pairs()),
            self.forward() == assoc_map(self.names()),
            self.forward().dom().finite(),
            self.forward().dom().len() == self.names().len(),
    {
        lemma_assoc_len(self.names());
    }

    /// An empty mapping; the first id gets number 0.
    pub fn new() -> (m: IdMapping)
        ensures
            m.wf(),
            m.forward() == Map::<Seq<char>, u32>::empty(),
            m.backward() == Map::<u32, Seq<char>>::empty(),
            m.pairs() == Seq::<(u32, Seq<char>)>::empty(),
            m.names() == Seq::<(Seq<char>, u32)>::empty(),
            m.upcoming() == 0,
    {
        let m = IdMapping { by_name: Vec::new(), by_number: HashMap::new(), next_id: 0 };
        assert(m.forward() =~= Map::<Seq<char>, u32>::empty());
        assert(m.backward() =~= Map::<u32, Seq<char>>::empty());
        assert(m.pairs() =~= Seq::<(u32, Seq<char>)>::empty());
        assert(m.names() =~= Seq::<(Seq<char>, u32)>::empty());
        assert(assoc_map(m.pairs()) =~= Map::<u32, Seq<char>>::empty());
        m
    }

    /// An empty mapping with room for `capacity` ids.
    pub fn with_capacity(capacity: usize) -> (m: IdMapping)
        ensures
            m.wf(),
            m.forward() == Map::<Seq<char>, u32>::empty(),
            m.backward() == Map::<u32, Seq<char>>::empty(),
            m.pairs() == Seq::<(u32, Seq<char>)>::empty(),
            m.names() == Seq::<(Seq<char>, u32)>::empty(),
            m.upcoming() == 0,
    {
        let m = IdMapping {
            by_name: Vec::with_capacity(capacity),
            by_number: HashMap::with_capacity(capacity),
            next_id: 0,
        };
        assert(m.forward() =~= Map::<Seq<char>, u32>::empty());
        assert(m.backward() =~= Map::<u32, Seq<char>>::empty());
        assert(m.pairs() =~= Seq::<(u32, Seq<char>)>::empty());
        assert(m.names() =~= Seq::<(Seq<char>, u32)>::empty());
        assert(assoc_map(m.pairs()) =~= Map::<u32, Seq<char>>::empty());
        m
    }

    /// Position of `id` in the id-to-number table.
    fn find_name(&self, id: &str) -> (r: Option<usize>)
        ensures
            match r {
                Some(i) => i < self.by_name@.len() && self.by_name@[i as int].0@ == id@,
                None => assoc_get(name_pairs(self.by_name@), id@) is None,
            },
    {
        let mut i: usize = 0;
        while i < self.by_name.len()
            invariant
                i <= self.by_name@.len(),
                forall|j: int| 0 <= j < i ==> self.by_name@[j].0@ != id@,
            decreases self.by_name@.len() - i,
        {
            if text_eq(self.by_name[i].0.as_str(), id) {
                return Some(i);
            }
            i += 1;
        }
        proof {
            let s = name_pairs(self.by_name@);
            assert forall|j: int| 0 <= j < s.len() implies (#[trigger] s[j]).0 != id@ by {
                assert(self.by_name@[j].0@ != id@);
            }
            lemma_assoc_absent(s, id@);
        }
        None
    }

    /// Gives `id` a number. An id that has one keeps it and nothing changes;
    /// a new id gets the next number, which no id has, both tables get the
    /// pair, and the next number goes up by one. A new id needs a next
    /// number below `u32::MAX`.
    pub fn insert(&mut self, id: String) -> (r: u32)
        requires
            old(self).wf(),
            old(self).forward().contains_key(id@) || old(self).upcoming() < u32::MAX,
        ensures
            final(self).wf(),
            old(self).forward().contains_key(id@) ==> {
                &&& r == old(self).forward()[id@]
                &&& final(self).forward() == old(self).forward()
                &&& final(self).backward() == old(self).backward()
                &&& final(self).pairs() == old(self).pairs()
                &&& final(self).names() == old(self).names()
                &&& final(self).upcoming() == old(self).upcoming()
            },
            !old(self).forward().contains_key(id@) ==> {
                &&& r == old(self).upcoming()
                &&& !old(self).backward().contains_key(r)
                &&& final(self).forward() == old(self).forward().insert(id@, r)
                &&& final(self).backward() == old(self).backward().insert(r, id@)
                &&& final(self).upcoming() == r + 1
                &&& final(self).names() == old(self).names().push((id@, r))
                &&& final(self).pairs() == old(self).pairs().push((r, id@))
            },
    {
        match self.find_name(id.as_str()) {
            Some(i) => {
                proof {
                    lemma_assoc_found(name_pairs(self.by_name@), i as int);
                }
                self.by_name[i].1
            },
            None => {
                let internal = self.next_id;
                let ghost names = name_pairs(self.by_name@);
                let ghost numbers = self.pairs();
                let ghost forward = self.forward();
                let ghost backward = self.backward();
                assert(!backward.contains_key(internal));
                self.by_name.push((id.clone(), internal));
                let _ = self.by_number.insert(internal, id);
                self.next_id = internal + 1;
                proof {
                    lemma_assoc_push(names, id@, internal);
                    assert(name_pairs(self.by_name@) =~= names.push((id@, internal)));
                    lemma_assoc_push(numbers, internal, id@);
                    assert(self.pairs() =~= numbers.push((internal, id@)));
                    assert(self.forward() == forward.insert(id@, internal));
                    assert(self.backward() =~= backward.insert(internal, id@));
                    assert(two_way(self.forward(), self.backward())) by {
                        assert forall|n: u32| #[trigger]
                            self.backward().contains_key(n) implies self.forward().contains_key(
                            self.backward()[n],
                        ) && self.forward()[self.backward()[n]] == n by {
                            if n != internal {
                                assert(backward.contains_key(n));
                                assert(forward.contains_key(backward[n]));
                            }
                        }
                        assert forall|t: Seq<char>| #[trigger]
                            self.forward().contains_key(t) implies self.backward().contains_key(
                            self.forward()[t],
                        ) && self.backward()[self.forward()[t]] == t by {
                            if t != id@ {
                                assert(forward.contains_key(t));
                                assert(backward.contains_key(forward[t]));
                            }
                        }
                    }
                    assert forall|n: u32| #[trigger]
                        self.backward().contains_key(n) implies n < self.next_id || n
                        == u32::MAX by {
                        if n != internal {
                            assert(backward.contains_key(n));
                        }
                    }
                }
                internal
            },
        }
    }

    /// The number of `id`, if it has one.
    pub fn get_internal(&self, id: &str) -> (r: Option<u32>)
        requires
            self.wf(),
        ensures
            r == (if self.forward().contains_key(id@) {
                Some(self.forward()[id@])
            } else {
                None
            }),
    {
        match self.find_name(id) {
            Some(i) => {
                proof {
                    lemma_assoc_found(name_pairs(self.by_name@), i as int);
                }
                Some(self.by_name[i].1)
            },
            None => None,
        }
    }

    /// The id that carries the number `internal`, if any does.
    pub fn get_external(&self, internal: u32) -> (r: Option<&str>)
        requires
            self.wf(),
        ensures
            r is Some == self.backward().contains_key(internal),
            r matches Some(s) ==> s@ == self.backward()[internal],
    {
        match self.by_number.get(&internal) {
            Some(id) => Some(id.as_str()),
            None => None,
        }
    }

    /// Whether `id` has a number.
    pub fn contains_external(&self, id: &str) -> (r: bool)
        requires
            self.wf(),
        ensures
            r == self.forward().contains_key(id@),
    {
        self.get_internal(id).is_some()
    }

    /// Whether some id carries the number `internal`.
    pub fn contains_internal(&self, internal: u32) -> (r: bool)
        requires
            self.wf(),
        ensures
            r == self.backward().contains_key(internal),
    {
        self.get_external(internal).is_some()
    }

    /// Takes `id` out of the mapping and returns the number it had. The
    /// number is taken out of the number-to-id table too.
    pub fn remove(&mut self, id: &str) -> (r: Option<u32>)
        requires
            old(self).wf(),
        ensures
            final(self).wf(),
            final(self).upcoming() == old(self).upcoming(),
            !old(self).forward().contains_key(id@) ==> {
                &&& r is None
                &&& final(self).forward() == old(self).forward()
                &&& final(self).backward() == old(self).backward()
            },
            old(self).forward().contains_key(id@) ==> {
                &&& r == Some(old(self).forward()[id@])
                &&& final(self).forward() == old(self).forward().remove(id@)
                &&& final(self).backward() == old(self).backward().remove(
                    old(self).forward()[id@],
                )
            },
    {
        let i = match self.find_name(id) {
            Some(i) => i,
            None => { return None; },
        };
        let ghost names = name_pairs(self.by_name@);
        let ghost numbers = self.pairs();
        let ghost forward = self.forward();
        let ghost backward = self.backward();
        proof {
            lemma_assoc_found(names, i as int);
            lemma_assoc_remove(names, i as int);
            lemma_assoc_remove(numbers, i as int);
            assert(forward.contains_key(id@));
            assert(backward.contains_key(forward[id@]));
        }
        let gone = self.by_name.remove(i);
        let internal = gone.1;
        assert(name_pairs(self.by_name@) =~= names.remove(i as int));
        assert(self.pairs() =~= numbers.remove(i as int));
        assert(numbers[i as int].0 == internal);
        let _ = self.by_number.remove(&internal);
        proof {
            assert(self.forward() == forward.remove(id@));
            assert(self.backward() =~= backward.remove(internal));
            assert(two_way(self.forward(), self.backward())) by {
                assert forall|n: u32| #[trigger]
                    self.backward().contains_key(n) implies self.forward().contains_key(
                    self.backward()[n],
                ) && self.forward()[self.backward()[n]] == n by {
                    assert(backward.contains_key(n));
                    assert(forward.contains_key(backward[n]));
                }
                assert forall|t: Seq<char>| #[trigger]
                    self.forward().contains_key(t) implies self.backward().contains_key(
                    self.forward()[t],
                ) && self.backward()[self.forward()[t]] == t by {
                    assert(forward.contains_key(t));
                    assert(backward.contains_key(forward[t]));
                }
            }
            assert forall|n: u32| #[trigger]
                self.backward().contains_key(n) implies n < self.next_id || n == u32::MAX by {
                assert(backward.contains_key(n));
            }
        }
        Some(internal)
    }

    /// Number of ids that have a number.
    pub fn len(&self) -> (r: usize)
        requires
            self.wf(),
        ensures
            r == self.forward().dom().len(),
            r == self.names().len(),
    {
        proof {
            self.lemma_tables();
        }
        self.by_name.len()
    }

    /// Whether no id has a number.
    pub fn is_empty(&self) -> (r: bool)
        requires
            self.wf(),
        ensures
            r == (self.forward().dom().len() == 0),
    {
        proof {
            self.lemma_tables();
        }
        self.by_name.len() == 0
    }

    /// The pairs of the id-to-number table, in the order they are kept.
    pub fn iter(&self) -> (r: Vec<(String, u32)>)
        ensures
            name_pairs(r@) == self.names(),
    {
        let mut out: Vec<(String, u32)> = Vec::new();
        let mut i: usize = 0;
        while i < self.by_name.len()
            invariant
                i <= self.by_name@.len(),
                out@.len() == i,
                forall|j: int| 0 <= j < i ==> out@[j].0@ == self.by_name@[j].0@ && out@[j].1
                    == self.by_name@[j].1,
            decreases self.by_name@.len() - i,
        {
            out.push((self.by_name[i].0.clone(), self.by_name[i].1));
            i += 1;
        }
        assert(name_pairs(out@) =~= name_pairs(self.by_name@));
        out
    }

    /// The number that the next new id gets.
    pub fn next_id(&self) -> (r: u32)
        ensures
            r == self.upcoming(),
    {
        self.next_id
    }

    /// The pairs of number and id, in ascending order of the numbers.
    ///
    /// The list is as long as the mapping, holds each number with its id,
    /// and holds no number and no id twice. Where the pairs are kept in
    /// ascending order, as after inserts alone, it is the pairs as kept.
    pub fn to_vec(&self) -> (r: Vec<(u32, String)>)
        requires
            self.wf(),
        ensures
            r@.len() == self.pairs().len(),
            r@.len() == self.names().len(),
            assoc_map(number_pairs(r@)) == self.backward(),
            numbers_ascend(number_pairs(r@)),
            assoc_distinct(number_pairs(r@)),
            assoc_distinct(turned(number_pairs(r@))),
            numbers_ascend(self.pairs()) ==> number_pairs(r@) == self.pairs(),
    {
        let ghost pairs = self.pairs();
        let mut out: Vec<(u32, String)> = Vec::new();
        let mut i: usize = 0;
        assert(assoc_map(number_pairs(out@)) =~= assoc_map(pairs.take(0)));
        assert(number_pairs(out@) =~= pairs.take(0));
        while i < self.by_name.len()
            invariant
                i <= self.by_name@.len(),
                pairs == self.pairs(),
                pairs.len() == self.by_name@.len(),
                assoc_distinct(pairs),
                out@.len() == i,
                numbers_ascend(number_pairs(out@)),
                assoc_map(number_pairs(out@)) == assoc_map(pairs.take(i as int)),
                numbers_ascend(pairs) ==> number_pairs(out@) == pairs.take(i as int),
            decreases self.by_name@.len() - i,
        {
            let number = self.by_name[i].1;
            let ghost before = number_pairs(out@);
            proof {
                assert(pairs[i as int] == (self.by_name@[i as int].1, self.by_name@[i as int].0@));
                assert forall|q: int| 0 <= q < before.len() implies (#[trigger] before[q]).0
                    != number by {
                    lemma_assoc_found(before, q);
                    if before[q].0 == number {
                        assert(assoc_map(pairs.take(i as int)).contains_key(number));
                        let w = crate::assoc::lemma_assoc_present(pairs.take(i as int), number);
                        assert(pairs[w] == pairs.take(i as int)[w]);
                        assert(pairs[w].0 == pairs[i as int].0);
                    }
                }
            }
            let mut p: usize = out.len();
            while p > 0 && out[p - 1].0 > number
                invariant
                    p <= out@.len(),
                    before == number_pairs(out@),
                    forall|q: int| p <= q < before.len() ==> (#[trigger] before[q]).0 > number,
                decreases p,
            {
                p -= 1;
            }
            out.insert(p, (number, self.by_name[i].0.clone()));
            proof {
                let after = number_pairs(out@);
                let next = pairs.take(i as int + 1);
                assert(after =~= before.insert(p as int, pairs[i as int]));
                lemma_assoc_insert_at(before, p as int, pairs[i as int].0, pairs[i as int].1);
                assert(next =~= pairs.take(i as int).push(pairs[i as int]));
                lemma_assoc_push(pairs.take(i as int), pairs[i as int].0, pairs[i as int].1);
                assert forall|a: int, b: int| 0 <= a < b < after.len() implies (
                #[trigger] after[a]).0 < (#[trigger] after[b]).0 by {
                    let a0 = if a < p { a } else { a - 1 };
                    let b0 = if b < p { b } else { b - 1 };
                    if a == p {
                        assert(after[b] == before[b0]);
                    } else if b == p {
                        assert(after[a] == before[a]);
                        assert(before[a].0 != number);
                        if a < p - 1 {
                            assert(before[a].0 < before[p - 1].0);
                        }
                    } else {
                        assert(after[a] == before[a0]);
                        assert(after[b] == before[b0]);
                    }
                }
                if numbers_ascend(pairs) {
                    if p < before.len() {
                        assert(before[p as int] == pairs[p as int]);
                        assert(pairs[p as int].0 < pairs[i as int].0);
                    }
                    assert(after =~= next);
                }
            }
            i += 1;
        }
        proof {
            let all = number_pairs(out@);
            assert(pairs.take(i as int) =~= pairs);
            self.law_two_way();
            assert forall|a: int, b: int| 0 <= a < b < all.len() implies (
            #[trigger] turned(all)[a]).0 != (#[trigger] turned(all)[b]).0 by {
                assert(all[a].0 < all[b].0);
                lemma_assoc_found(all, a);
                lemma_assoc_found(all, b);
                assert(self.backward().contains_key(all[a].0));
                assert(self.backward().contains_key(all[b].0));
            }
        }
        out
    }

    /// Builds a mapping from (number, id) pairs.
    ///
    /// Succeeds exactly when no number and no id occurs twice; the tables
    /// then hold the pairs in the order given, and the next number is one
    /// past the largest number seen. Otherwise fails with `InvalidArgument`.
    pub fn from_vec(pairs: Vec<(u32, String)>) -> (r: Result<IdMapping, Error>)
        ensures
            match r {
                Ok(m) => {
                    &&& assoc_distinct(number_pairs(pairs@))
                    &&& assoc_distinct(turned(number_pairs(pairs@)))
                    &&& m.wf()
                    &&& m.pairs() == number_pairs(pairs@)
                    &&& m.names() == turned(number_pairs(pairs@))
                    &&& m.upcoming() == next_after(number_pairs(pairs@), 0)
                },
                Err(e) => {
                    &&& e matches Error::InvalidArgument { field, .. } && field@ == "id_mapping"@
                    &&& !(assoc_distinct(number_pairs(pairs@)) && assoc_distinct(
                        turned(number_pairs(pairs@)),
                    ))
                },
            },
    {
        let ghost all = number_pairs(pairs@);
        let mut m = IdMapping::with_capacity(pairs.len());
        let mut i: usize = 0;
        assert(all.take(0) =~= Seq::empty());
        assert(turned(all.take(0)) =~= Seq::empty());
        while i < pairs.len()
            invariant
                i <= pairs@.len(),
                all == number_pairs(pairs@),
                m.wf(),
                m.pairs() == all.take(i as int),
                m.names() == turned(all.take(i as int)),
                m.upcoming() == next_after(all.take(i as int), 0),
            decreases pairs@.len() - i,
        {
            let internal = pairs[i].0;
            let ghost done = all.take(i as int);
            let ghost next = all.take(i as int + 1);
            proof {
                assert(next =~= done.push(all[i as int]));
                assert(next.drop_last() =~= done);
                assert(turned(next) =~= turned(done).push((all[i as int].1, all[i as int].0)));
            }
            if m.by_number.contains_key(&internal) {
                proof {
                    assert(m.backward().contains_key(internal));
                    let j = crate::assoc::lemma_assoc_present(done, internal);
                    assert(all[j] == done[j]);
                    assert(all[j].0 == all[i as int].0);
                }
                return Err(
                    Error::InvalidArgument {
                        field: "id_mapping".to_owned(),
                        reason: "duplicate internal ID".to_owned(),
                    },
                );
            }
            if let Some(j) = m.find_name(pairs[i].1.as_str()) {
                proof {
                    let t = turned(all);
                    assert(turned(done)[j as int].0 == all[i as int].1);
                    assert(turned(done)[j as int].0 == done[j as int].1);
                    assert(t[j as int].0 == all[j as int].1);
                    assert(t[i as int].0 == all[i as int].1);
                    assert(t[j as int].0 == t[i as int].0);
                }
                return Err(
                    Error::InvalidArgument {
                        field: "id_mapping".to_owned(),
                        reason: "duplicate external ID".to_owned(),
                    },
                );
            }
            let external = pairs[i].1.clone();
            let ghost forward = m.forward();
            let ghost backward = m.backward();
            proof {
                lemma_assoc_push(done, internal, external@);
                lemma_assoc_push(turned(done), external@, internal);
                assert(!backward.contains_key(internal));
                assert(!forward.contains_key(external@));
            }
            let _ = m.by_number.insert(internal, external.clone());
            m.by_name.push((external, internal));
            let one_past: u32 = if internal == u32::MAX {
                0
            } else {
                internal + 1
            };
            if one_past > m.next_id {
                m.next_id = one_past;
            }
            proof {
                assert(name_pairs(m.by_name@) =~= turned(next));
                assert(m.pairs() =~= next);
                assert(m.forward() == forward.insert(external@, internal));
                assert(m.backward() =~= backward.insert(internal, external@));
                assert(two_way(m.forward(), m.backward())) by {
                    assert forall|n: u32| #[trigger]
                        m.backward().contains_key(n) implies m.forward().contains_key(
                        m.backward()[n],
                    ) && m.forward()[m.backward()[n]] == n by {
                        if n != internal {
                            assert(backward.contains_key(n));
                            assert(forward.contains_key(backward[n]));
                        }
                    }
                    assert forall|t: Seq<char>| #[trigger]
                        m.forward().contains_key(t) implies m.backward().contains_key(
                        m.forward()[t],
                    ) && m.backward()[m.forward()[t]] == t by {
                        if t != external@ {
                            assert(forward.contains_key(t));
                            assert(backward.contains_key(forward[t]));
                        }
                    }
                }
                assert forall|n: u32| #[trigger]
                    m.backward().contains_key(n) implies n < m.next_id || n == u32::MAX by {
                    if n != internal {
                        assert(backward.contains_key(n));
                    }
                }
            }
            i += 1;
        }
        assert(all.take(pairs@.len() as int) =~= all);
        Ok(m)
    }
}

} // verus!
