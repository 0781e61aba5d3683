//! A set of texts, kept as a list without repetitions.

use vstd::prelude::*;
use crate::codec::text_eq;

verus! {

/// The texts of a list as a set.
pub open spec fn texts_of(v: Seq<String>) -> Set<Seq<char>> {
    Set::new(|t: Seq<char>| exists|i: int| 0 <= i < v.len() && (#[trigger] v[i])@ == t)
}

/// No text occurs twice in the list.
pub open spec fn texts_distinct(v: Seq<String>) -> bool {
    forall|i: int, j: int| 0 <= i < j < v.len() ==> (#[trigger] v[i])@ != (#[trigger] v[j])@
}

/// A set of texts.
#[derive(Debug)]
pub struct TextSet {
    items: Vec<String>,
}

impl View for TextSet {
    type V = Set<Seq<char>>;

    closed spec fn view(&self) -> Set<Seq<char>> {
        texts_of(self.items@)
    }
}

impl TextSet {
    /// No text is kept twice.
    pub closed spec fn wf(&self) -> bool {
        texts_distinct(self.items@)
    }

    /// The texts in the order they were first put in.
    pub closed spec fn listing(&self) -> Seq<Seq<char>> {
        Seq::new(self.items@.len(), |i: int| self.items@[i]@)
    }

    /// The empty set.
    pub fn new() -> (s: TextSet)
        ensures
            s.wf(),
            s@ == Set::<Seq<char>>::empty(),
    {
        let s = TextSet { items: Vec::new() };
        assert(s@ =~= Set::<Seq<char>>::empty());
        s
    }

    /// Position of `t` in the list.
    fn find(&self, t: &str) -> (r: Option<usize>)
        ensures
            match r {
                Some(i) => i < self.items@.len() && self.items@[i as int]@ == t@,
                None => !self@.contains(t@),
            },
    {
        let mut i: usize = 0;
        while i < self.items.len()
            invariant
                i <= self.items@.len(),
                forall|j: int| 0 <= j < i ==> self.items@[j]@ != t@,
            decreases self.items@.len() - i,
        {
            if text_eq(self.items[i].as_str(), t) {
                return Some(i);
            }
            i += 1;
        }
        None
    }

    /// Whether `t` is in the set.
    pub fn contains(&self, t: &str) -> (r: bool)
        ensures
            r == self@.contains(t@),
    {
        match self.find(t) {
            Some(i) => {
                assert(self.items@[i as int]@ == t@);
                true
            },
            None => false,
        }
    }

    /// Puts `t` into the set; says whether it was new.
    pub fn insert(&mut self, t: String) -> (r: bool)
        requires
            old(self).wf(),
        ensures
            final(self).wf(),
            final(self)@ == old(self)@.insert(t@),
            r == !old(self)@.contains(t@),
    {
        match self.find(t.as_str()) {
            Some(i) => {
                assert(self.items@[i as int]@ == t@);
                assert(self@ =~= self@.insert(t@));
                false
            },
            None => {
                let ghost before = self.items@;
                self.items.push(t);
                proof {
                    assert forall|x: Seq<char>| self@.contains(x) <==> old(self)@.insert(
                        t@,
                    ).contains(x) by {
                        if self@.contains(x) {
                            let i = choose|i: int|
                                0 <= i < self.items@.len() && (#[trigger] self.items@[i])@ == x;
                            if i < before.len() {
                                assert(before[i]@ == x);
                            }
                        }
                        if old(self)@.contains(x) {
                            let i = choose|i: int|
                                0 <= i < before.len() && (#[trigger] before[i])@ == x;
                            assert(self.items@[i]@ == x);
                        }
                        if x == t@ {
                            assert(self.items@[before.len() as int]@ == x);
                        }
                    }
                    assert(self@ =~= old(self)@.insert(t@));
                    assert forall|i: int, j: int| 0 <= i < j < self.items@.len() implies (
                    #[trigger] self.items@[i])@ != (#[trigger] self.items@[j])@ by {
                        assert(self.items@[i] == before[i]);
                        if j < before.len() {
                            assert(self.items@[j] == before[j]);
                        }
                    }
                }
                true
            },
        }
    }

    /// Takes `t` out of the set; says whether it was there.
    pub fn remove(&mut self, t: &str) -> (r: bool)
        requires
            old(self).wf(),
        ensures
            final(self).wf(),
            final(self)@ == old(self)@.remove(t@),
            r == old(self)@.contains(t@),
    {
        match self.find(t) {
            Some(i) => {
                let ghost before = self.items@;
                assert(before[i as int]@ == t@);
                let _ = self.items.remove(i);
                proof {
                    let after = self.items@;
                    assert forall|a: int, b: int| 0 <= a < b < after.len() implies (
                    #[trigger] after[a])@ != (#[trigger] after[b])@ by {
                        let a2 = if a < i { a } else { a + 1 };
                        let b2 = if b < i { b } else { b + 1 };
                        assert(after[a] == before[a2]);
                        assert(after[b] == before[b2]);
                    }
                    assert forall|x: Seq<char>| self@.contains(x) <==> old(self)@.remove(
                        t@,
                    ).contains(x) by {
                        if self@.contains(x) {
                            let j = choose|j: int|
                                0 <= j < after.len() && (#[trigger] after[j])@ == x;
                            let j2 = if j < i { j } else { j + 1 };
                            assert(after[j] == before[j2]);
                            assert(before[j2]@ == x);
                            if j2 < i {
                                assert(before[j2]@ != before[i as int]@);
                            } else {
                                assert(before[i as int]@ != before[j2]@);
                            }
                        }
                        if old(self)@.contains(x) && x != t@ {
                            let j = choose|j: int|
                                0 <= j < before.len() && (#[trigger] before[j])@ == x;
                            let j1 = if j < i { j } else { j - 1 };
                            assert(after[j1] == before[j]);
                        }
                    }
                    assert(self@ =~= old(self)@.remove(t@));
                }
                true
            },
            None => {
                assert(self@ =~= old(self)@.remove(t@));
                false
            },
        }
    }

    /// Number of texts in the set.
    pub fn len(&self) -> (r: usize)
        ensures
            r == self.listing().len(),
    {
        self.items.len()
    }

    /// Whether the set is empty.
    pub fn is_empty(&self) -> (r: bool)
        ensures
            r == (self.listing().len() == 0),
            r ==> self@ == Set::<Seq<char>>::empty(),
    {
        if self.items.len() == 0 {
            assert(self@ =~= Set::<Seq<char>>::empty());
            true
        } else {
            false
        }
    }

    /// The texts of the set, in the order they were first put in.
    pub fn to_vec(&self) -> (r: Vec<String>)
        ensures
            r@.len() == self.listing().len(),
            forall|i: int| 0 <= i < r@.len() ==> (#[trigger] r@[i])@ == self.listing()[i],
    {
        let mut out: Vec<String> = Vec::new();
        let mut i: usize = 0;
        while i < self.items.len()
            invariant
                i <= self.items@.len(),
                out@.len() == i,
                forall|j: int| 0 <= j < i ==> (#[trigger] out@[j])@ == self.items@[j]@,
            decreases self.items@.len() - i,
        {
            out.push(self.items[i].clone());
            i += 1;
        }
        out
    }

    /// A copy of the set.
    pub fn duplicate(&self) -> (r: TextSet)
        requires
            self.wf(),
        ensures
            r.wf(),
            r@ == self@,
            r.listing() == self.listing(),
    {
        let items = self.to_vec();
        let r = TextSet { items };
        proof {
            assert(r.listing() =~= self.listing());
            assert forall|i: int, j: int| 0 <= i < j < r.items@.len() implies (
            #[trigger] r.items@[i])@ != (#[trigger] r.items@[j])@ by {
                assert(r.items@[i]@ == self.listing()[i]);
                assert(r.items@[j]@ == self.listing()[j]);
                assert(self.items@[i]@ != self.items@[j]@);
            }
            assert forall|x: Seq<char>| r@.contains(x) <==> self@.contains(x) by {
                if r@.contains(x) {
                    let i = choose|i: int| 0 <= i < r.items@.len() && (#[trigger] r.items@[i])@
                        == x;
                    assert(r.items@[i]@ == self.listing()[i]);
                    assert(self.items@[i]@ == x);
                }
                if self@.contains(x) {
                    let i = choose|i: int|
                        0 <= i < self.items@.len() && (#[trigger] self.items@[i])@ == x;
                    assert(r.items@[i]@ == self.listing()[i]);
                }
            }
            assert(r@ =~= self@);
        }
        r
    }
}

} // verus!
