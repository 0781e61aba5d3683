//! The memtable: the in-memory write buffer of a collection.
//!
//! Documents are numbered in the order their ids are first inserted. Their
//! vectors lie one after another in a flat buffer; replacing a document
//! appends its new vector and leaves the old one dead in the buffer.
//! Deletes are recorded by external id in a tombstone set, whether or not
//! the memtable holds the document.

use vstd::prelude::*;
use crate::assoc::{assoc_distinct, assoc_get, lemma_assoc_found, lemma_assoc_present};
use crate::codec::{clone_text, text_of};
use crate::error::Error;
use crate::id::{turned, IdMapping};
use crate::segment::{Document, DocumentView};
use crate::textset::TextSet;

verus! {

/// What the memtable keeps of a document beside its vector.
#[derive(Debug, Clone)]
pub struct MemtableDoc {
    /// Internal number.
    pub internal_id: u32,
    /// External id.
    pub external_id: String,
    /// Where the vector starts in the vector buffer.
    pub vector_offset: usize,
    /// JSON text of the payload, if any.
    pub payload: Option<String>,
}

/// The document that a descriptor stands for, given the vector buffer.
pub open spec fn doc_view(d: MemtableDoc, buffer: Seq<u32>, dim: nat) -> DocumentView {
    DocumentView {
        id: d.external_id@,
        vector: buffer.subrange(d.vector_offset as int, d.vector_offset + dim),
        payload: text_of(d.payload),
    }
}

/// The position of the document with id `id`, if there is one.
pub open spec fn id_index(entries: Seq<DocumentView>, id: Seq<char>) -> Option<int> {
    if exists|i: int| 0 <= i < entries.len() && (#[trigger] entries[i]).id == id {
        Some(choose|i: int| 0 <= i < entries.len() && (#[trigger] entries[i]).id == id)
    } else {
        None
    }
}

/// The documents that are not tombstoned, each with its number, in
/// ascending order of the numbers.
pub open spec fn active_rows(entries: Seq<DocumentView>, tombstones: Set<Seq<char>>) -> Seq<
    (u32, DocumentView),
>
    decreases entries.len(),
{
    if entries.len() == 0 {
        Seq::empty()
    } else {
        let front = active_rows(entries.drop_last(), tombstones);
        if tombstones.contains(entries.last().id) {
            front
        } else {
            front.push(((entries.len() - 1) as u32, entries.last()))
        }
    }
}

/// There are no more active rows than documents, and every active row
/// carries a document held, under its number.
pub proof fn lemma_active_rows(entries: Seq<DocumentView>, tombstones: Set<Seq<char>>)
    requires
        entries.len() <= u32::MAX,
    ensures
        active_rows(entries, tombstones).len() <= entries.len(),
        forall|k: int|
            0 <= k < active_rows(entries, tombstones).len() ==> {
                let row = #[trigger] active_rows(entries, tombstones)[k];
                &&& row.0 < entries.len()
                &&& row.1 == entries[row.0 as int]
                &&& !tombstones.contains(row.1.id)
            },
        forall|a: int, b: int|
            0 <= a < b < active_rows(entries, tombstones).len() ==> (#[trigger] active_rows(
                entries,
                tombstones,
            )[a]).0 < (#[trigger] active_rows(entries, tombstones)[b]).0,
    decreases entries.len(),
{
    if entries.len() > 0 {
        let front = active_rows(entries.drop_last(), tombstones);
        let all = active_rows(entries, tombstones);
        lemma_active_rows(entries.drop_last(), tombstones);
        assert forall|k: int| 0 <= k < all.len() implies {
            let row = #[trigger] all[k];
            &&& row.0 < entries.len()
            &&& row.1 == entries[row.0 as int]
            &&& !tombstones.contains(row.1.id)
        } by {
            if k < front.len() {
                assert(all[k] == front[k]);
                assert(entries.drop_last()[front[k].0 as int] == entries[front[k].0 as int]);
            }
        }
        assert forall|a: int, b: int| 0 <= a < b < all.len() implies (#[trigger] all[a]).0 < (
        #[trigger] all[b]).0 by {
            assert(all[a] == front[a]);
            if b < front.len() {
                assert(all[b] == front[b]);
            }
        }
    }
}

/// The sum of `a` and `b`, or `usize::MAX` if that is smaller.
pub open spec fn capped_sum(a: int, b: int) -> usize {
    if a + b > usize::MAX {
        usize::MAX
    } else {
        (a + b) as usize
    }
}

/// Appends all of `src` to `buf`.
fn append_words(buf: &mut Vec<u32>, src: &Vec<u32>)
    ensures
        final(buf)@ == old(buf)@ + src@,
{
    let mut i: usize = 0;
    while i < src.len()
        invariant
            i <= src@.len(),
            buf@ == old(buf)@ + src@.subrange(0, i as int),
        decreases src@.len() - i,
    {
        buf.push(src[i]);
        i += 1;
        assert(buf@ =~= old(buf)@ + src@.subrange(0, i as int));
    }
    assert(src@.subrange(0, src@.len() as int) =~= src@);
}

/// The in-memory write buffer of a collection.
#[derive(Debug)]
pub struct Memtable {
    dimension: usize,
    id_mapping: IdMapping,
    documents: Vec<MemtableDoc>,
    vector_buffer: Vec<u32>,
    next_buffer_pos: usize,
    deleted: TextSet,
    estimated_size: usize,
}

impl Memtable {
    /// The dimension of the collection.
    pub closed spec fn dim(&self) -> nat {
        self.dimension as nat
    }

    /// The documents held, by internal number, each with its latest vector
    /// and payload.
    pub closed spec fn entries(&self) -> Seq<DocumentView> {
        Seq::new(
            self.documents@.len(),
            |i: int| doc_view(self.documents@[i], self.vector_buffer@, self.dimension as nat),
        )
    }

    /// The external ids marked as deleted.
    pub closed spec fn tombstones(&self) -> Set<Seq<char>> {
        self.deleted@
    }

    /// The vector buffer: the vectors of all inserts, one after another.
    pub closed spec fn buffer(&self) -> Seq<u32> {
        self.vector_buffer@
    }

    /// The estimated size in bytes of what was inserted.
    pub closed spec fn size_estimate(&self) -> usize {
        self.estimated_size
    }

    /// The memtable's invariant: the id table numbers the documents by
    /// position, and every document's vector lies whole in the buffer, at
    /// an offset that is a multiple of the dimension.
    pub closed spec fn wf(&self) -> bool {
        &&& self.id_mapping.wf()
        &&& self.deleted.wf()
        &&& self.documents@.len() <= u32::MAX
        &&& self.id_mapping.pairs() == Seq::new(
            self.documents@.len(),
            |i: int| (i as u32, self.documents@[i].external_id@),
        )
        &&& self.id_mapping.names() == turned(self.id_mapping.pairs())
        &&& self.id_mapping.upcoming() == self.documents@.len()
        &&& self.next_buffer_pos == self.vector_buffer@.len()
        &&& self.dimension > 0 ==> (self.vector_buffer@.len() as int) % (self.dimension as int)
            == 0
        &&& forall|i: int|
            0 <= i < self.documents@.len() ==> {
                &&& (#[trigger] self.documents@[i]).internal_id == i
                &&& self.documents@[i].vector_offset + self.dimension <= self.vector_buffer@.len()
                &&& self.dimension > 0 ==> (self.documents@[i].vector_offset as int) % (
                self.dimension as int) == 0
            }
    }

    /// No two documents share an id, every vector has the dimension, and
    /// an id is in the id table exactly when a document carries it.
    pub proof fn lemma_entries(&self)
        requires
            self.wf(),
        ensures
            self.entries().len() <= u32::MAX,
            forall|i: int, j: int|
                0 <= i < j < self.entries().len() ==> (#[trigger] self.entries()[i]).id != (
                #[trigger] self.entries()[j]).id,
            forall|i: int|
                0 <= i < self.entries().len() ==> (#[trigger] self.entries()[i]).vector.len()
                    == self.dim(),
    {
        self.id_mapping.lemma_tables();
        let names = self.id_mapping.names();
        assert forall|i: int, j: int| 0 <= i < j < self.entries().len() implies (
        #[trigger] self.entries()[i]).id != (#[trigger] self.entries()[j]).id by {
            assert(names[i].0 == self.entries()[i].id);
            assert(names[j].0 == self.entries()[j].id);
        }
    }

    /// The id table finds a document's number by its id.
    proof fn lemma_lookup(&self, id: Seq<char>)
        requires
            self.wf(),
        ensures
            match id_index(self.entries(), id) {
                Some(i) => 0 <= i < self.entries().len() && self.entries()[i].id == id
                    && self.id_mapping.forward().contains_key(id)
                    && self.id_mapping.forward()[id] == i,
                None => !self.id_mapping.forward().contains_key(id),
            },
    {
        self.id_mapping.lemma_tables();
        self.lemma_entries();
        let names = self.id_mapping.names();
        let entries = self.entries();
        if assoc_get(names, id) is Some {
            let k = lemma_assoc_present(names, id);
            assert(entries[k].id == id);
            let i = id_index(entries, id)->0;
            if i < k {
                assert(entries[i].id != entries[k].id);
            } else if k < i {
                assert(entries[k].id != entries[i].id);
            }
        } else {
            if id_index(entries, id) is Some {
                let i = id_index(entries, id)->0;
                assert(names[i].0 == id);
                lemma_assoc_found(names, i);
            }
        }
    }

    /// The id table gives each number the id of its document.
    proof fn lemma_reverse(&self, internal: u32)
        requires
            self.wf(),
        ensures
            self.id_mapping.backward().contains_key(internal) == (internal
                < self.entries().len()),
            internal < self.entries().len() ==> self.id_mapping.backward()[internal]
                == self.entries()[internal as int].id,
    {
        self.id_mapping.lemma_tables();
        let pairs = self.id_mapping.pairs();
        if (internal as int) < pairs.len() {
            assert(assoc_distinct(pairs));
            lemma_assoc_found(pairs, internal as int);
        } else {
            if assoc_get(pairs, internal) is Some {
                let k = lemma_assoc_present(pairs, internal);
                assert(pairs[k].0 == k);
            }
        }
    }

    /// An empty memtable for vectors of the given dimension.
    pub fn new(dimension: usize) -> (m: Memtable)
        ensures
            m.wf(),
            m.dim() == dimension,
            m.entries() == Seq::<DocumentView>::empty(),
            m.tombstones() == Set::<Seq<char>>::empty(),
            m.buffer() == Seq::<u32>::empty(),
            m.size_estimate() == 0,
    {
        let m = Memtable {
            dimension,
            id_mapping: IdMapping::new(),
            documents: Vec::new(),
            vector_buffer: Vec::new(),
            next_buffer_pos: 0,
            deleted: TextSet::new(),
            estimated_size: 0,
        };
        proof {
            assert(m.entries() =~= Seq::<DocumentView>::empty());
            assert(m.id_mapping.pairs() =~= Seq::new(
                0,
                |i: int| (i as u32, m.documents@[i].external_id@),
            ));
            assert(turned(m.id_mapping.pairs()) =~= Seq::empty());
        }
        m
    }

    /// An empty memtable with room for `doc_capacity` documents.
    pub fn with_capacity(dimension: usize, doc_capacity: usize) -> (m: Memtable)
        ensures
            m.wf(),
            m.dim() == dimension,
            m.entries() == Seq::<DocumentView>::empty(),
            m.tombstones() == Set::<Seq<char>>::empty(),
            m.buffer() == Seq::<u32>::empty(),
            m.size_estimate() == 0,
    {
        let m = Memtable {
            dimension,
            id_mapping: IdMapping::with_capacity(doc_capacity),
            documents: Vec::with_capacity(doc_capacity),
            vector_buffer: Vec::new(),
            next_buffer_pos: 0,
            deleted: TextSet::new(),
            estimated_size: 0,
        };
        proof {
            assert(m.entries() =~= Seq::<DocumentView>::empty());
            assert(m.id_mapping.pairs() =~= Seq::new(
                0,
                |i: int| (i as u32, m.documents@[i].external_id@),
            ));
            assert(turned(m.id_mapping.pairs()) =~= Seq::empty());
        }
        m
    }

    /// The dimension of the collection.
    pub fn dimension(&self) -> (r: usize)
        ensures
            r == self.dim(),
    {
        self.dimension
    }

    /// Number of documents held, tombstoned ones included.
    pub fn len(&self) -> (r: usize)
        ensures
            r == self.entries().len(),
    {
        self.documents.len()
    }

    /// Whether no document is held.
    pub fn is_empty(&self) -> (r: bool)
        ensures
            r == (self.entries().len() == 0),
    {
        self.documents.len() == 0
    }

    /// Number of documents held that are not tombstoned.
    pub fn active_count(&self) -> (r: usize)
        requires
            self.wf(),
        ensures
            r == active_rows(self.entries(), self.tombstones()).len(),
    {
        let ghost entries = self.entries();
        let mut count: usize = 0;
        let mut i: usize = 0;
        assert(entries.take(0) =~= Seq::empty());
        while i < self.documents.len()
            invariant
                i <= self.documents@.len(),
                entries == self.entries(),
                count <= i,
                count == active_rows(entries.take(i as int), self.tombstones()).len(),
            decreases self.documents@.len() - i,
        {
            proof {
                let next = entries.take(i as int + 1);
                assert(next.drop_last() =~= entries.take(i as int));
                assert(next.last() == entries[i as int]);
            }
            if !self.deleted.contains(self.documents[i].external_id.as_str()) {
                count += 1;
            }
            i += 1;
        }
        assert(entries.take(self.documents@.len() as int) =~= entries);
        count
    }

    /// Whether the external id is tombstoned.
    pub fn is_deleted_by_external(&self, external_id: &str) -> (r: bool)
        ensures
            r == self.tombstones().contains(external_id@),
    {
        self.deleted.contains(external_id)
    }

    /// Whether the document numbered `internal_id` is held and tombstoned.
    pub fn is_deleted(&self, internal_id: u32) -> (r: bool)
        requires
            self.wf(),
        ensures
            r == (internal_id < self.entries().len() && self.tombstones().contains(
                self.entries()[internal_id as int].id,
            )),
    {
        proof {
            self.lemma_reverse(internal_id);
        }
        match self.id_mapping.get_external(internal_id) {
            Some(external_id) => self.deleted.contains(external_id),
            None => false,
        }
    }

    /// Tombstones the external id.
    pub fn mark_deleted_by_external(&mut self, external_id: &str)
        requires
            old(self).wf(),
        ensures
            final(self).wf(),
            final(self).dim() == old(self).dim(),
            final(self).entries() == old(self).entries(),
            final(self).buffer() == old(self).buffer(),
            final(self).tombstones() == old(self).tombstones().insert(external_id@),
            final(self).size_estimate() == old(self).size_estimate(),
    {
        let _ = self.deleted.insert(external_id.to_owned());
    }

    /// Tombstones the document numbered `internal_id`, if it is held.
    pub fn mark_deleted(&mut self, internal_id: u32)
        requires
            old(self).wf(),
        ensures
            final(self).wf(),
            final(self).dim() == old(self).dim(),
            final(self).entries() == old(self).entries(),
            final(self).size_estimate() == old(self).size_estimate(),
            final(self).tombstones() == (if internal_id < old(self).entries().len() {
                old(self).tombstones().insert(old(self).entries()[internal_id as int].id)
            } else {
                old(self).tombstones()
            }),
    {
        proof {
            self.lemma_reverse(internal_id);
        }
        let found = match self.id_mapping.get_external(internal_id) {
            Some(external_id) => Some(external_id.to_owned()),
            None => None,
        };
        match found {
            Some(id) => {
                let _ = self.deleted.insert(id);
            },
            None => {},
        }
    }

    /// The tombstoned external ids.
    pub fn collect_deleted_ids(&self) -> (r: TextSet)
        requires
            self.wf(),
        ensures
            r.wf(),
            r@ == self.tombstones(),
    {
        self.deleted.duplicate()
    }

    /// The id table.
    pub fn id_mapping(&self) -> (r: &IdMapping)
        requires
            self.wf(),
        ensures
            r.wf(),
            r.upcoming() == self.entries().len(),
            r.pairs() == Seq::new(self.entries().len(), |i: int| (i as u32, self.entries()[i].id)),
            r.names() == crate::id::turned(r.pairs()),
    {
        assert(self.id_mapping.pairs() =~= Seq::new(
            self.entries().len(),
            |i: int| (i as u32, self.entries()[i].id),
        ));
        &self.id_mapping
    }

    /// The number of the document with the given external id.
    pub fn get_internal_id(&self, external_id: &str) -> (r: Option<u32>)
        requires
            self.wf(),
        ensures
            match id_index(self.entries(), external_id@) {
                Some(i) => r == Some(i as u32),
                None => r is None,
            },
    {
        proof {
            self.lemma_lookup(external_id@);
        }
        self.id_mapping.get_internal(external_id)
    }

    /// The document numbered `internal_id` with its vector, unless it is
    /// not held or is tombstoned.
    pub fn get(&self, internal_id: u32) -> (r: Option<(&MemtableDoc, &[u32])>)
        requires
            self.wf(),
        ensures
            r is Some == (internal_id < self.entries().len() && !self.tombstones().contains(
                self.entries()[internal_id as int].id,
            )),
            r matches Some(dv) ==> {
                &&& dv.0.internal_id == internal_id
                &&& dv.0.external_id@ == self.entries()[internal_id as int].id
                &&& text_of(dv.0.payload) == self.entries()[internal_id as int].payload
                &&& dv.1@ == self.entries()[internal_id as int].vector
            },
    {
        if self.is_deleted(internal_id) {
            return None;
        }
        if internal_id as usize >= self.documents.len() {
            return None;
        }
        let doc = &self.documents[internal_id as usize];
        let vector = vstd::slice::slice_subrange(
            self.vector_buffer.as_slice(),
            doc.vector_offset,
            doc.vector_offset + self.dimension,
        );
        Some((doc, vector))
    }

    /// The document with the given external id, unless it is not held or
    /// is tombstoned.
    pub fn get_by_external(&self, external_id: &str) -> (r: Option<(&MemtableDoc, &[u32])>)
        requires
            self.wf(),
        ensures
            r is Some == (id_index(self.entries(), external_id@) is Some
                && !self.tombstones().contains(external_id@)),
            r matches Some(dv) ==> {
                let i = id_index(self.entries(), external_id@)->0;
                &&& dv.0.internal_id == i
                &&& dv.0.external_id@ == external_id@
                &&& text_of(dv.0.payload) == self.entries()[i].payload
                &&& dv.1@ == self.entries()[i].vector
            },
    {
        proof {
            self.lemma_lookup(external_id@);
        }
        match self.id_mapping.get_internal(external_id) {
            Some(internal_id) => self.get(internal_id),
            None => None,
        }
    }

    /// Inserts or replaces a document and takes its id out of the
    /// tombstones.
    ///
    /// A new id gets the next number; a known id keeps its number and the
    /// document takes the place of the old one. Fails, changing nothing,
    /// with `WrongDimension` when the vector does not have the dimension,
    /// and with `InvalidArgument` when the id is new and `u32::MAX`
    /// documents are held.
    pub fn insert(&mut self, doc: Document) -> (r: Result<u32, Error>)
        requires
            old(self).wf(),
        ensures
            final(self).wf(),
            final(self).dim() == old(self).dim(),
            doc.vector@.len() != old(self).dim() ==> (r matches Err(
                Error::WrongDimension { expected, got },
            ) && expected == old(self).dim() && got == doc.vector@.len()),
            r is Err ==> {
                &&& final(self).entries() == old(self).entries()
                &&& final(self).tombstones() == old(self).tombstones()
                &&& final(self).buffer() == old(self).buffer()
                &&& final(self).size_estimate() == old(self).size_estimate()
            },
            doc.vector@.len() == old(self).dim() ==> (match id_index(
                old(self).entries(),
                doc.id@,
            ) {
                Some(i) => {
                    &&& r == Ok::<u32, Error>(i as u32)
                    &&& final(self).entries() == old(self).entries().update(i, doc@)
                },
                None => if old(self).entries().len() < u32::MAX {
                    &&& r == Ok::<u32, Error>(old(self).entries().len() as u32)
                    &&& final(self).entries() == old(self).entries().push(doc@)
                } else {
                    r matches Err(Error::InvalidArgument { .. })
                },
            }),
            r is Ok ==> final(self).buffer() == old(self).buffer() + doc.vector@,
            r is Ok ==> {
                &&& final(self).tombstones() == old(self).tombstones().remove(doc.id@)
                &&& final(self).size_estimate() == capped_sum(
                    old(self).size_estimate() as int,
                    (4 * old(self).dim() + vstd::utf8::encode_utf8(doc.id@).len()) as int,
                )
            },
    {
        if doc.vector.len() != self.dimension {
            return Err(
                Error::WrongDimension { expected: self.dimension, got: doc.vector.len() },
            );
        }
        proof {
            self.lemma_lookup(doc.id@);
            self.lemma_entries();
            self.id_mapping.lemma_tables();
            self.lemma_reverse(self.documents@.len() as u32);
        }
        let known = self.id_mapping.get_internal(doc.id.as_str());
        if known.is_none() && self.documents.len() >= 0xFFFF_FFFF {
            return Err(Error::invalid_arg("documents", "memtable is full"));
        }
        let ghost old_entries = self.entries();
        let ghost old_docs = self.documents@;
        let ghost old_buffer = self.vector_buffer@;
        let ghost old_pairs = self.id_mapping.pairs();
        let internal_id = self.id_mapping.insert(doc.id.clone());
        let vector_offset = self.vector_buffer.len();
        append_words(&mut self.vector_buffer, &doc.vector);
        self.next_buffer_pos = self.vector_buffer.len();
        let id_len = doc.id.as_str().as_bytes().len();
        let total: u128 = self.estimated_size as u128 + 4 * (self.dimension as u128)
            + id_len as u128;
        self.estimated_size = if total > usize::MAX as u128 {
            usize::MAX
        } else {
            total as usize
        };
        let _ = self.deleted.remove(doc.id.as_str());
        let ghost view = doc@;
        let entry = MemtableDoc {
            internal_id,
            external_id: doc.id,
            vector_offset,
            payload: doc.payload,
        };
        proof {
            assert(self.vector_buffer@.subrange(
                vector_offset as int,
                vector_offset + self.dimension,
            ) =~= view.vector);
            assert(doc_view(entry, self.vector_buffer@, self.dimension as nat) == view);
            if self.dimension > 0 {
                let d = self.dimension as int;
                let a = old_buffer.len() as int;
                assert((a + d) % d == 0) by (nonlinear_arith)
                    requires
                        a % d == 0,
                        d > 0,
                ;
            }
        }
        match known {
            Some(_) => {
                self.documents[internal_id as usize] = entry;
                proof {
                    let i = internal_id as int;
                    assert forall|j: int| 0 <= j < self.documents@.len() implies doc_view(
                        self.documents@[j],
                        self.vector_buffer@,
                        self.dimension as nat,
                    ) == old_entries.update(i, view)[j] by {
                        if j != i {
                            assert(self.documents@[j] == old_docs[j]);
                            assert(self.vector_buffer@.subrange(
                                old_docs[j].vector_offset as int,
                                old_docs[j].vector_offset + self.dimension,
                            ) =~= old_buffer.subrange(
                                old_docs[j].vector_offset as int,
                                old_docs[j].vector_offset + self.dimension,
                            ));
                        }
                    }
                    assert(self.entries() =~= old_entries.update(i, view));
                    assert(self.id_mapping.pairs() =~= Seq::new(
                        self.documents@.len(),
                        |j: int| (j as u32, self.documents@[j].external_id@),
                    )) by {
                        assert forall|j: int| 0 <= j < self.documents@.len() implies old_pairs[j]
                            == (j as u32, self.documents@[j].external_id@) by {
                            if j != i {
                                assert(self.documents@[j] == old_docs[j]);
                            } else {
                                assert(old_entries[i].id == view.id);
                            }
                        }
                    }
                }
            },
            None => {
                self.documents.push(entry);
                proof {
                    let n = old_docs.len() as int;
                    assert forall|j: int| 0 <= j < self.documents@.len() implies doc_view(
                        self.documents@[j],
                        self.vector_buffer@,
                        self.dimension as nat,
                    ) == old_entries.push(view)[j] by {
                        if j < n {
                            assert(self.documents@[j] == old_docs[j]);
                            assert(self.vector_buffer@.subrange(
                                old_docs[j].vector_offset as int,
                                old_docs[j].vector_offset + self.dimension,
                            ) =~= old_buffer.subrange(
                                old_docs[j].vector_offset as int,
                                old_docs[j].vector_offset + self.dimension,
                            ));
                        }
                    }
                    assert(self.entries() =~= old_entries.push(view));
                    assert(self.id_mapping.pairs() =~= Seq::new(
                        self.documents@.len(),
                        |j: int| (j as u32, self.documents@[j].external_id@),
                    )) by {
                        assert(self.id_mapping.pairs() == old_pairs.push(
                            (internal_id, view.id),
                        ));
                        assert forall|j: int|
                            0 <= j < self.documents@.len() implies self.id_mapping.pairs()[j] == (
                            j as u32,
                            self.documents@[j].external_id@,
                        ) by {
                            if j < n {
                                assert(self.documents@[j] == old_docs[j]);
                            }
                        }
                    }
                    assert(turned(old_pairs.push((internal_id, view.id))) =~= turned(
                        old_pairs,
                    ).push((view.id, internal_id)));
                }
            },
        }
        Ok(internal_id)
    }

    /// Tombstones the external id, whether or not a document carries it,
    /// and returns the number of the document that does.
    pub fn delete(&mut self, external_id: &str) -> (r: Option<u32>)
        requires
            old(self).wf(),
        ensures
            final(self).wf(),
            final(self).dim() == old(self).dim(),
            final(self).entries() == old(self).entries(),
            final(self).buffer() == old(self).buffer(),
            final(self).size_estimate() == old(self).size_estimate(),
            final(self).tombstones() == old(self).tombstones().insert(external_id@),
            match id_index(old(self).entries(), external_id@) {
                Some(i) => r == Some(i as u32),
                None => r is None,
            },
    {
        self.mark_deleted_by_external(external_id);
        self.get_internal_id(external_id)
    }

    /// The documents that are not tombstoned, each with its number and a
    /// copy of its vector and payload, in ascending order of the numbers.
    pub fn iter(&self) -> (r: Vec<(u32, Document)>)
        requires
            self.wf(),
        ensures
            crate::segment::rows_view(r@) == active_rows(self.entries(), self.tombstones()),
    {
        let ghost entries = self.entries();
        let mut out: Vec<(u32, Document)> = Vec::new();
        let mut i: usize = 0;
        assert(entries.take(0) =~= Seq::empty());
        assert(crate::segment::rows_view(out@) =~= Seq::empty());
        while i < self.documents.len()
            invariant
                i <= self.documents@.len(),
                self.wf(),
                entries == self.entries(),
                crate::segment::rows_view(out@) == active_rows(
                    entries.take(i as int),
                    self.tombstones(),
                ),
            decreases self.documents@.len() - i,
        {
            proof {
                let next = entries.take(i as int + 1);
                assert(next.drop_last() =~= entries.take(i as int));
                assert(next.last() == entries[i as int]);
            }
            let d = &self.documents[i];
            if !self.deleted.contains(d.external_id.as_str()) {
                let ghost before = crate::segment::rows_view(out@);
                let vector = vstd::slice::slice_to_vec(
                    vstd::slice::slice_subrange(
                        self.vector_buffer.as_slice(),
                        d.vector_offset,
                        d.vector_offset + self.dimension,
                    ),
                );
                let doc = Document {
                    id: d.external_id.clone(),
                    vector,
                    payload: clone_text(&d.payload),
                };
                assert(doc@ == entries[i as int]);
                out.push((i as u32, doc));
                assert(crate::segment::rows_view(out@) =~= before.push(
                    (i as u32, entries[i as int]),
                ));
            }
            i += 1;
        }
        assert(entries.take(self.documents@.len() as int) =~= entries);
        out
    }

    /// The vector buffer: the vectors of all inserts, in order, dead ones
    /// included.
    pub fn vector_buffer(&self) -> (r: &[u32])
        requires
            self.wf(),
        ensures
            r@ == self.buffer(),
    {
        assert(self.vector_buffer@.subrange(0, self.vector_buffer@.len() as int)
            =~= self.vector_buffer@);
        vstd::slice::slice_subrange(self.vector_buffer.as_slice(), 0, self.next_buffer_pos)
    }

    /// The descriptors of the documents held, by internal number.
    pub fn documents(&self) -> (r: &Vec<MemtableDoc>)
        requires
            self.wf(),
        ensures
            r@.len() == self.entries().len(),
            forall|i: int|
                0 <= i < r@.len() ==> {
                    &&& (#[trigger] r@[i]).internal_id == i
                    &&& r@[i].vector_offset + self.dim() <= self.buffer().len()
                    &&& doc_view(r@[i], self.buffer(), self.dim()) == self.entries()[i]
                    &&& self.dim() > 0 ==> r@[i].vector_offset as int % self.dim() as int == 0
                },
    {
        &self.documents
    }

    /// The estimated size in bytes of what was inserted: per insert, four
    /// bytes for each component and the length of the id, capped at
    /// `usize::MAX`.
    pub fn estimated_size(&self) -> (r: usize)
        ensures
            r == self.size_estimate(),
    {
        self.estimated_size
    }

    /// Freezes the memtable for a flush.
    pub fn freeze(self) -> (f: FrozenMemtable)
        requires
            self.wf(),
        ensures
            f.wf(),
            f.dim() == self.dim(),
            f.entries() == self.entries(),
            f.tombstones() == self.tombstones(),
    {
        FrozenMemtable { inner: self }
    }

    /// Thaws a frozen memtable.
    pub fn from_frozen(frozen: FrozenMemtable) -> (m: Memtable)
        requires
            frozen.wf(),
        ensures
            m.wf(),
            m.dim() == frozen.dim(),
            m.entries() == frozen.entries(),
            m.tombstones() == frozen.tombstones(),
            m.size_estimate() == 0,
    {
        let mut m = frozen.inner;
        m.estimated_size = 0;
        m
    }
}

/// A memtable that is no longer written to, ready for a flush.
#[derive(Debug)]
pub struct FrozenMemtable {
    inner: Memtable,
}

impl FrozenMemtable {
    /// The dimension.
    pub closed spec fn dim(&self) -> nat {
        self.inner.dim()
    }

    /// The documents held, by internal number.
    pub closed spec fn entries(&self) -> Seq<DocumentView> {
        self.inner.entries()
    }

    /// The external ids marked as deleted.
    pub closed spec fn tombstones(&self) -> Set<Seq<char>> {
        self.inner.tombstones()
    }

    /// The invariant of the memtable that was frozen.
    pub closed spec fn wf(&self) -> bool {
        self.inner.wf()
    }

    /// The dimension.
    pub fn dimension(&self) -> (r: usize)
        ensures
            r == self.dim(),
    {
        self.inner.dimension()
    }

    /// The id table.
    pub fn id_mapping(&self) -> (r: &IdMapping)
        requires
            self.wf(),
        ensures
            r.wf(),
            r.upcoming() == self.entries().len(),
            r.pairs() == Seq::new(self.entries().len(), |i: int| (i as u32, self.entries()[i].id)),
            r.names() == crate::id::turned(r.pairs()),
    {
        self.inner.id_mapping()
    }

    /// The documents that are not tombstoned, each with its number, in
    /// ascending order of the numbers.
    pub fn iter_active_with_payload(&self) -> (r: Vec<(u32, Document)>)
        requires
            self.wf(),
        ensures
            crate::segment::rows_view(r@) == active_rows(self.entries(), self.tombstones()),
    {
        self.inner.iter()
    }

    /// The documents that are not tombstoned, as [`Self::iter_active_with_payload`]
    /// gives them.
    pub fn iter_active(&self) -> (r: Vec<(u32, Document)>)
        requires
            self.wf(),
        ensures
            crate::segment::rows_view(r@) == active_rows(self.entries(), self.tombstones()),
    {
        self.inner.iter()
    }

    /// Number of documents that are not tombstoned.
    pub fn active_count(&self) -> (r: usize)
        requires
            self.wf(),
        ensures
            r == active_rows(self.entries(), self.tombstones()).len(),
    {
        self.inner.active_count()
    }
}

} // verus!
