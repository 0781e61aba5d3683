//! The list of collections of a database.

use vstd::prelude::*;
use crate::error::Error;
use crate::manifest::{contains_name, named_in};

verus! {

/// The names of the collections of a database.
#[derive(Debug)]
pub struct DatabaseManifest {
    /// Format version.
    pub version: u32,
    /// Names of the collections, in the order they were created.
    pub collections: Vec<String>,
}

/// The names other than `name`, in order.
pub open spec fn names_without(names: Seq<String>, name: Seq<char>) -> Seq<Seq<char>>
    decreases names.len(),
{
    if names.len() == 0 {
        Seq::empty()
    } else if names.last()@ == name {
        names_without(names.drop_last(), name)
    } else {
        names_without(names.drop_last(), name).push(names.last()@)
    }
}

/// The texts of a list of names.
pub open spec fn names_view(names: Seq<String>) -> Seq<Seq<char>> {
    Seq::new(names.len(), |i: int| names[i]@)
}

impl DatabaseManifest {
    /// The format version that this library writes and reads.
    pub const CURRENT_VERSION: u32 = 1;

    /// The manifest of a database without collections.
    pub fn new() -> (m: DatabaseManifest)
        ensures
            m.version == 1,
            m.collections@.len() == 0,
    {
        DatabaseManifest { version: 1, collections: Vec::new() }
    }

    /// Whether the database has a collection of this name.
    pub fn has_collection(&self, name: &str) -> (r: bool)
        ensures
            r == named_in(self.collections@, name@),
    {
        contains_name(&self.collections, name)
    }

    /// Adds a collection name, unless it is there already.
    pub fn add_collection(&mut self, name: &str)
        ensures
            final(self).version == old(self).version,
            named_in(old(self).collections@, name@) ==> final(self).collections@ == old(
                self,
            ).collections@,
            !named_in(old(self).collections@, name@) ==> names_view(final(self).collections@)
                == names_view(old(self).collections@).push(name@),
    {
        if !contains_name(&self.collections, name) {
            self.collections.push(name.to_owned());
            assert(names_view(self.collections@) =~= names_view(old(self).collections@).push(
                name@,
            ));
        }
    }

    /// Removes a collection name; the others stay, in order.
    pub fn remove_collection(&mut self, name: &str)
        ensures
            final(self).version == old(self).version,
            names_view(final(self).collections@) == names_without(old(self).collections@, name@),
    {
        let mut kept: Vec<String> = Vec::new();
        let mut i: usize = 0;
        let ghost all = self.collections@;
        assert(all.take(0) =~= Seq::empty());
        assert(names_view(kept@) =~= names_without(all.take(0), name@));
        while i < self.collections.len()
            invariant
                i <= self.collections@.len(),
                all == self.collections@,
                *self == *old(self),
                names_view(kept@) == names_without(all.take(i as int), name@),
            decreases self.collections@.len() - i,
        {
            proof {
                let next = all.take(i as int + 1);
                assert(next.drop_last() =~= all.take(i as int));
                assert(next.last() == all[i as int]);
            }
            if !crate::codec::text_eq(self.collections[i].as_str(), name) {
                let ghost before = names_view(kept@);
                kept.push(self.collections[i].clone());
                assert(names_view(kept@) =~= before.push(all[i as int]@));
            }
            i += 1;
        }
        assert(all.take(self.collections@.len() as int) =~= all);
        self.collections = kept;
    }

    /// Registers a new collection. Fails with `CollectionExists` when the
    /// name is taken.
    pub fn create_collection(&mut self, name: &str) -> (r: Result<(), Error>)
        ensures
            final(self).version == old(self).version,
            named_in(old(self).collections@, name@) ==> (r matches Err(
                Error::CollectionExists { name: n },
            ) && n@ == name@ && final(self).collections@ == old(self).collections@),
            !named_in(old(self).collections@, name@) ==> r is Ok && names_view(
                final(self).collections@,
            ) == names_view(old(self).collections@).push(name@),
    {
        if contains_name(&self.collections, name) {
            return Err(Error::CollectionExists { name: name.to_owned() });
        }
        self.add_collection(name);
        Ok(())
    }

    /// Looks for a collection. Fails with `CollectionNotFound` when there
    /// is none of this name.
    pub fn get_collection(&self, name: &str) -> (r: Result<(), Error>)
        ensures
            named_in(self.collections@, name@) ==> r is Ok,
            !named_in(self.collections@, name@) ==> (r matches Err(
                Error::CollectionNotFound { name: n },
            ) && n@ == name@),
    {
        if contains_name(&self.collections, name) {
            Ok(())
        } else {
            Err(Error::CollectionNotFound { name: name.to_owned() })
        }
    }

    /// The names of the collections.
    pub fn list_collections(&self) -> (r: Vec<String>)
        ensures
            names_view(r@) == names_view(self.collections@),
    {
        let mut out: Vec<String> = Vec::new();
        let mut i: usize = 0;
        while i < self.collections.len()
            invariant
                i <= self.collections@.len(),
                out@.len() == i,
                forall|j: int| 0 <= j < i ==> (#[trigger] out@[j])@ == self.collections@[j]@,
            decreases self.collections@.len() - i,
        {
            out.push(self.collections[i].clone());
            i += 1;
        }
        assert(names_view(out@) =~= names_view(self.collections@));
        out
    }
}

} // verus!
