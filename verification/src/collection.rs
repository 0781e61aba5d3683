//! One collection: memtable, segments, log, manifest and index together.
//!
//! The collection is held as a value. Every operation changes that value
//! and says what is to be made durable; reading and writing the files is
//! left to the caller. A write goes to the log first and to the memtable
//! after. A read looks in the memtable, then in the segments from the
//! newest to the oldest.

use vstd::prelude::*;
use crate::codec::{clone_text, text_of};
use crate::error::Error;
use crate::hnsw::HnswIndex;
use crate::compaction::{
    apply_compaction, capped, compacted_entry, count_docs, docs_in, first_off, kept,
    manifest_compacted, merge_all, Merge, scan_order, segment_files, CompactionResult,
    COMPACTED_SEGMENT_NAME, INDEX_FILE_NAME,
};
use crate::manifest::{Manifest, SegmentEntry};
use crate::memtable::{active_rows, capped_sum, id_index, lemma_active_rows, Memtable};
use crate::search::Search;
use crate::segment::{
    buildable, documents_view, file_accepts, file_external, file_internal, file_payload,
    file_row_limit, file_rows, file_vector, lemma_segment_layout, rows_view, segment_file,
    Document, DocumentView, Segment, SegmentBuilder,
};
use crate::wal::{
    apply_cut, delete_record, encodable, insert_record, lemma_log_of_push, lemma_replay_vectors,
    log_of, numbered,
    record_bytes, replay_spec, replayed_view, scan_spec, Record, RecordView, Wal,
    MAX_BATCH_SIZE, WAL_FLUSH_THRESHOLD,
};
use crate::{CollectionConfig, CollectionStats, Durability};

verus! {

/// What a memtable holds, as mathematical values.
pub struct MemState {
    /// The dimension.
    pub dim: nat,
    /// The documents, by internal number.
    pub entries: Seq<DocumentView>,
    /// The tombstoned external ids.
    pub tombstones: Set<Seq<char>>,
    /// The vector buffer: the vectors of all inserts, one after another.
    pub buffer: Seq<u32>,
    /// The estimated size in bytes of what was inserted.
    pub size: usize,
}

/// The state of a memtable.
pub open spec fn state_of(m: Memtable) -> MemState {
    MemState {
        dim: m.dim(),
        entries: m.entries(),
        tombstones: m.tombstones(),
        buffer: m.buffer(),
        size: m.size_estimate(),
    }
}

/// The state after one record is applied: an insert puts the document in
/// the place of the one with its id, or behind the others, takes its id
/// out of the tombstones, puts its vector behind the buffer and adds its
/// size to the estimate; a delete tombstones the id.
pub open spec fn after_record(s: MemState, r: RecordView) -> MemState {
    match r {
        RecordView::Insert { id, vector, payload } => {
            let doc = DocumentView { id, vector, payload };
            MemState {
                dim: s.dim,
                entries: match id_index(s.entries, id) {
                    Some(i) => s.entries.update(i, doc),
                    None => s.entries.push(doc),
                },
                tombstones: s.tombstones.remove(id),
                buffer: s.buffer + vector,
                size: capped_sum(
                    s.size as int,
                    (4 * s.dim + vstd::utf8::encode_utf8(id).len()) as int,
                ),
            }
        },
        RecordView::Delete { id } => MemState {
            dim: s.dim,
            entries: s.entries,
            tombstones: s.tombstones.insert(id),
            buffer: s.buffer,
            size: s.size,
        },
    }
}

/// The state after the records are applied in order.
pub open spec fn after_records(s: MemState, records: Seq<(u64, RecordView)>) -> MemState
    decreases records.len(),
{
    if records.len() == 0 {
        s
    } else {
        after_record(after_records(s, records.drop_last()), records.last().1)
    }
}

/// Whether every insert among the records has a vector of `dim`
/// components.
pub open spec fn vectors_fit(records: Seq<(u64, RecordView)>, dim: nat) -> bool {
    forall|i: int|
        0 <= i < records.len() ==> ((#[trigger] records[i]).1 matches RecordView::Insert {
            vector,
            ..
        } ==> vector.len() == dim)
}

/// Applies one record of the log to the memtable.
pub fn apply_record(memtable: &mut Memtable, record: Record) -> (r: Result<(), Error>)
    requires
        old(memtable).wf(),
    ensures
        final(memtable).wf(),
        final(memtable).dim() == old(memtable).dim(),
        r is Ok ==> state_of(*final(memtable)) == after_record(state_of(*old(memtable)), record@),
        r is Err ==> state_of(*final(memtable)) == state_of(*old(memtable)),
        r is Err ==> record is Insert,
        r matches Err(e) ==> e is WrongDimension || e is InvalidArgument,
        (record@ matches RecordView::Insert { vector, .. } ==> vector.len() == old(memtable).dim())
            && old(memtable).entries().len() < u32::MAX ==> r is Ok,
{
    match record {
        Record::Insert(body) => {
            let doc = Document { id: body.id, vector: body.vector, payload: body.payload };
            match memtable.insert(doc) {
                Ok(_) => Ok(()),
                Err(e) => Err(e),
            }
        },
        Record::Delete(body) => {
            let _ = memtable.delete(body.id.as_str());
            Ok(())
        },
    }
}

/// Whether applying `records` to a memtable in state `before` stopped at
/// record `p`, an insert that the memtable did not take, leaving it in
/// state `after` with the records before `p` applied.
pub open spec fn stopped_at(
    before: MemState,
    records: Seq<(u64, RecordView)>,
    after: MemState,
    p: int,
) -> bool {
    &&& 0 <= p < records.len()
    &&& records[p].1 is Insert
    &&& after == after_records(before, records.take(p))
}

/// Applies replayed records to the memtable, in order, up to the first
/// that fails.
pub fn recover(memtable: &mut Memtable, records: Vec<(u64, Record)>) -> (r: Result<(), Error>)
    requires
        old(memtable).wf(),
    ensures
        final(memtable).wf(),
        final(memtable).dim() == old(memtable).dim(),
        r is Err ==> exists|p: int| #[trigger]
            stopped_at(
                state_of(*old(memtable)),
                replayed_view(records@),
                state_of(*final(memtable)),
                p,
            ),
        r matches Err(e) ==> e is WrongDimension || e is InvalidArgument,
        r is Ok ==> state_of(*final(memtable)) == after_records(
            state_of(*old(memtable)),
            replayed_view(records@),
        ),
        vectors_fit(replayed_view(records@), old(memtable).dim()) && old(memtable).entries().len()
            + records@.len() < u32::MAX ==> r is Ok,
{
    let ghost all = replayed_view(records@);
    let ghost start = state_of(*memtable);
    let ghost count = records@.len();
    let total = records.len();
    let mut pending = records;
    let mut rest: Vec<(u64, Record)> = Vec::new();
    // take the records from the back into `rest`, so that they come off in order
    let ghost given = pending@;
    while pending.len() > 0
        invariant
            pending@.len() + rest@.len() == given.len(),
            forall|i: int| 0 <= i < pending@.len() ==> (#[trigger] pending@[i]) == given[i],
            forall|i: int|
                0 <= i < rest@.len() ==> (#[trigger] rest@[i]) == given[given.len() - 1 - i],
        decreases pending@.len(),
    {
        match pending.pop() {
            Some(x) => {
                rest.push(x);
            },
            None => {},
        }
    }
    let mut done: usize = 0;
    assert(all.take(0) =~= Seq::empty());
    while rest.len() > 0
        invariant
            memtable.wf(),
            memtable.dim() == old(memtable).dim(),
            all == replayed_view(given),
            all == replayed_view(records@),
            count == records@.len(),
            given.len() == total,
            given.len() == count,
            start == state_of(*old(memtable)),
            done + rest@.len() == given.len(),
            forall|i: int|
                0 <= i < rest@.len() ==> (#[trigger] rest@[i]) == given[given.len() - 1 - i],
            state_of(*memtable) == after_records(start, all.take(done as int)),
            memtable.entries().len() <= old(memtable).entries().len() + done,
        decreases rest@.len(),
    {
        let ghost before = state_of(*memtable);
        let ghost held = memtable.entries().len();
        let record = match rest.pop() {
            Some(x) => x.1,
            None => { return Ok(()); },
        };
        proof {
            let next = all.take(done as int + 1);
            assert(next.drop_last() =~= all.take(done as int));
            assert(next.last() == all[done as int]);
            assert(all[done as int].1 == record@);
        }
        match apply_record(memtable, record) {
            Ok(()) => {},
            Err(e) => {
                proof {
                    assert(stopped_at(
                        state_of(*old(memtable)),
                        replayed_view(records@),
                        state_of(*memtable),
                        done as int,
                    ));
                    if vectors_fit(all, old(memtable).dim()) && old(memtable).entries().len()
                        + count < u32::MAX {
                        assert(all[done as int].1 matches RecordView::Insert { vector, .. }
                            ==> vector.len() == old(memtable).dim());
                        assert(held < u32::MAX);
                        assert(false);
                    }
                }
                return Err(e);
            },
        }
        done += 1;
    }
    assert(all.take(given.len() as int) =~= all);
    Ok(())
}

/// The newest version of the document `id` in the segment files, oldest
/// first in the list.
pub open spec fn newest_in(files: Seq<Seq<u8>>, id: Seq<char>) -> Option<DocumentView>
    decreases files.len(),
{
    if files.len() == 0 {
        None
    } else {
        match file_internal(files.last(), id) {
            Some(n) => Some(
                DocumentView {
                    id,
                    vector: match file_vector(files.last(), n) {
                        Some(v) => v,
                        None => Seq::empty(),
                    },
                    payload: file_payload(files.last(), n),
                },
            ),
            None => newest_in(files.drop_last(), id),
        }
    }
}

/// What a read of `id` gives: nothing if the id is tombstoned; else the
/// document of the memtable with that id; else the newest in the segments.
pub open spec fn visible(
    entries: Seq<DocumentView>,
    tombstones: Set<Seq<char>>,
    files: Seq<Seq<u8>>,
    id: Seq<char>,
) -> Option<DocumentView> {
    if tombstones.contains(id) {
        None
    } else {
        match id_index(entries, id) {
            Some(i) => Some(entries[i]),
            None => newest_in(files, id),
        }
    }
}

/// What `Option<Document>` says.
pub open spec fn document_of(d: Option<Document>) -> Option<DocumentView> {
    match d {
        Some(x) => Some(x@),
        None => None,
    }
}

/// Looks the document `id` up in the memtable and the segments.
pub fn find_document(memtable: &Memtable, segments: &Vec<Segment>, id: &str) -> (r: Option<
    Document,
>)
    requires
        memtable.wf(),
        forall|i: int| 0 <= i < segments@.len() ==> (#[trigger] segments@[i]).wf(),
    ensures
        document_of(r) == visible(
            memtable.entries(),
            memtable.tombstones(),
            crate::compaction::segment_files(segments@),
            id@,
        ),
{
    if memtable.is_deleted_by_external(id) {
        return None;
    }
    match memtable.get_by_external(id) {
        Some(dv) => {
            let vector = vstd::slice::slice_to_vec(dv.1);
            return Some(
                Document { id: dv.0.external_id.clone(), vector, payload: clone_text(&dv.0.payload) },
            );
        },
        None => {},
    }
    let ghost files = crate::compaction::segment_files(segments@);
    let mut s: usize = segments.len();
    assert(files.take(s as int) =~= files);
    while s > 0
        invariant
            s <= segments@.len(),
            files == crate::compaction::segment_files(segments@),
            forall|i: int| 0 <= i < segments@.len() ==> (#[trigger] segments@[i]).wf(),
            !memtable.tombstones().contains(id@),
            id_index(memtable.entries(), id@) is None,
            newest_in(files, id@) == newest_in(files.take(s as int), id@),
        decreases s,
    {
        s -= 1;
        let segment = &segments[s];
        proof {
            assert(files.take(s as int + 1).last() == files[s as int]);
            assert(files.take(s as int + 1).drop_last() =~= files.take(s as int));
        }
        match segment.get_internal_id(id) {
            Some(n) => {
                let vector = match segment.get_vector(n) {
                    Some(v) => v,
                    None => Vec::new(),
                };
                let payload = segment.get_payload(n);
                return Some(Document { id: id.to_owned(), vector, payload });
            },
            None => {},
        }
    }
    None
}

/// What a write to the log asks of the caller.
#[derive(Debug, Clone, Copy, PartialEq, Eq, Structural)]
pub struct Written {
    /// Sequence number of the last record written.
    pub seq: u64,
    /// Offset in the log from which the new bytes start.
    pub from: u64,
    /// Whether the log is to be forced to stable storage before the write
    /// is acknowledged.
    pub sync: bool,
    /// Whether the log has grown beyond the flush threshold, so that a
    /// flush is due.
    pub flush_due: bool,
}

/// One collection.
#[derive(Debug)]
pub struct Collection {
    name: String,
    config: CollectionConfig,
    manifest: Manifest,
    memtable: Memtable,
    segments: Vec<Segment>,
    wal: Wal,
    index: Option<HnswIndex>,
}

impl Collection {
    /// The configuration.
    pub closed spec fn conf(&self) -> CollectionConfig {
        self.config
    }

    /// The manifest.
    pub closed spec fn man(&self) -> Manifest {
        self.manifest
    }

    /// The memtable.
    pub closed spec fn mem(&self) -> Memtable {
        self.memtable
    }

    /// The segments, oldest first.
    pub closed spec fn segs(&self) -> Seq<Segment> {
        self.segments@
    }

    /// The log.
    pub closed spec fn journal(&self) -> Wal {
        self.wal
    }

    /// The index, if there is one.
    pub closed spec fn graph(&self) -> Option<HnswIndex> {
        self.index
    }

    /// The name of the collection.
    pub closed spec fn label(&self) -> Seq<char> {
        self.name@
    }

    /// The bytes of the segment files, oldest first.
    pub open spec fn files(&self) -> Seq<Seq<u8>> {
        crate::compaction::segment_files(self.segs())
    }

    /// The collection's invariant: the memtable, every segment and the
    /// index are well-formed, and the memtable has the configured
    /// dimension.
    pub closed spec fn wf(&self) -> bool {
        &&& self.memtable.wf()
        &&& self.memtable.dim() == self.config.dim
        &&& forall|i: int| 0 <= i < self.segments@.len() ==> (#[trigger] self.segments@[i]).wf()
        &&& self.index matches Some(g) ==> g.wf()
    }

    /// In a well-formed collection the memtable, every segment and the
    /// index are well-formed, and the memtable has the configured
    /// dimension.
    pub proof fn law_parts(&self)
        requires
            self.wf(),
        ensures
            self.mem().wf(),
            self.mem().dim() == self.conf().dim,
            forall|i: int| 0 <= i < self.segs().len() ==> (#[trigger] self.segs()[i]).wf(),
            forall|i: int|
                0 <= i < self.files().len() ==> crate::segment::file_accepts(
                    #[trigger] self.files()[i],
                ),
            self.graph() matches Some(g) ==> g.wf(),
    {
        assert forall|i: int| 0 <= i < self.files().len() implies crate::segment::file_accepts(
            #[trigger] self.files()[i],
        ) by {
            self.segs()[i].law_header();
        }
    }

    /// Opens a collection from what was read of it: the manifest, the
    /// segments it names, the bytes of the log, and the index.
    ///
    /// The log is cut back to its valid prefix and replayed from one past
    /// the last sequence number that the manifest says was applied. The
    /// records replayed are applied to a fresh memtable, and the manifest
    /// takes the last sequence number of the log if that is higher.
    pub fn open(
        name: &str,
        config: CollectionConfig,
        manifest: Manifest,
        segments: Vec<Segment>,
        wal_bytes: Vec<u8>,
        index: Option<HnswIndex>,
    ) -> (r: Result<Collection, Error>)
        requires
            forall|i: int| 0 <= i < segments@.len() ==> (#[trigger] segments@[i]).wf(),
            index matches Some(g) ==> g.wf(),
        ensures
            r matches Ok(c) ==> {
                let valid = wal_bytes@.take(scan_spec(wal_bytes@, 0).0);
                let replay = replay_spec(
                    valid,
                    0,
                    (manifest.last_wal_seq + 1) as u64,
                    config.dim as nat,
                );
                &&& c.wf()
                &&& manifest.last_wal_seq < u64::MAX
                &&& !replay.failed
                &&& c.conf() == config
                &&& c.segs() == segments@
                &&& c.graph() == index
                &&& c.journal().log() == apply_cut(valid, replay.cut)
                &&& c.journal().upcoming() == replay.last_applied + 1
                &&& state_of(c.mem()) == after_records(
                    empty_state(config.dim as nat),
                    replay.records,
                )
                &&& c.man().last_wal_seq == (if replay.last_applied > manifest.last_wal_seq {
                    replay.last_applied
                } else {
                    manifest.last_wal_seq
                })
                &&& c.man().segments == manifest.segments
                &&& c.man().config == manifest.config
                &&& c.man().index_file == manifest.index_file
                &&& c.man().index_generation == manifest.index_generation
                &&& c.man().version == manifest.version
                &&& c.label() == name@
            },
            ({
                let valid = wal_bytes@.take(scan_spec(wal_bytes@, 0).0);
                let replay = replay_spec(
                    valid,
                    0,
                    (manifest.last_wal_seq + 1) as u64,
                    config.dim as nat,
                );
                &&& manifest.last_wal_seq < u64::MAX && scan_spec(wal_bytes@, 0).1 < u64::MAX
                    && !replay.failed && replay.last_applied < u64::MAX && replay.records.len()
                    < u32::MAX ==> r is Ok
                &&& manifest.last_wal_seq == u64::MAX || scan_spec(wal_bytes@, 0).1 == u64::MAX
                    ==> (r matches Err(Error::WalError { .. }))
                &&& manifest.last_wal_seq < u64::MAX && scan_spec(wal_bytes@, 0).1 < u64::MAX
                    && replay.failed ==> (r matches Err(Error::Serialization(_)))
                &&& manifest.last_wal_seq < u64::MAX && scan_spec(wal_bytes@, 0).1 < u64::MAX
                    && !replay.failed && replay.last_applied == u64::MAX ==> (r matches Err(
                    Error::WalError { .. },
                ))
                &&& manifest.last_wal_seq < u64::MAX && scan_spec(wal_bytes@, 0).1 < u64::MAX
                    && !replay.failed && replay.last_applied < u64::MAX ==> (r matches Err(e)
                    ==> e is InvalidArgument || e is WrongDimension)
            }),
    {
        let mut manifest = manifest;
        if manifest.last_wal_seq == u64::MAX {
            return Err(
                Error::WalError {
                    seq: manifest.last_wal_seq,
                    message: "sequence numbers are used up".to_owned(),
                },
            );
        }
        let mut wal = match Wal::open(wal_bytes, Some(manifest.last_wal_seq)) {
            Ok(w) => w,
            Err(e) => { return Err(e); },
        };
        let mut memtable = Memtable::new(config.dim);
        let ghost kept_log = wal.log();
        let replay = match wal.replay(manifest.last_wal_seq + 1, config.dim) {
            Ok(out) => out,
            Err(e) => { return Err(e); },
        };
        proof {
            let start = (manifest.last_wal_seq + 1) as u64;
            lemma_replay_vectors(kept_log, 0, start, config.dim as nat);
            let records = replay_spec(kept_log, 0, start, config.dim as nat).records;
            assert(replayed_view(replay.records@) == records);
            assert forall|i: int| 0 <= i < records.len() implies ((#[trigger] records[i]).1 matches RecordView::Insert {
                vector,
                ..
            } ==> vector.len() == config.dim as nat) by {
                assert(crate::wal::vector_len(records[i].1) == config.dim as nat || records[i].1 is Delete);
            }
        }
        match recover(&mut memtable, replay.records) {
            Ok(()) => {},
            Err(e) => { return Err(e); },
        }
        let new_last = wal.next_seq() - 1;
        if new_last > manifest.last_wal_seq {
            manifest.set_last_wal_seq(new_last);
        }
        Ok(
            Collection {
                name: name.to_owned(),
                config,
                manifest,
                memtable,
                segments,
                wal,
                index,
            },
        )
    }

    /// The name of the collection.
    pub fn name(&self) -> (r: &str)
        ensures
            r@ == self.label(),
    {
        self.name.as_str()
    }

    /// The configuration.
    pub fn config(&self) -> (r: &CollectionConfig)
        ensures
            *r == self.conf(),
    {
        &self.config
    }

    /// The manifest.
    pub fn manifest(&self) -> (r: &Manifest)
        ensures
            *r == self.man(),
    {
        &self.manifest
    }

    /// The memtable.
    pub fn memtable(&self) -> (r: &Memtable)
        ensures
            *r == self.mem(),
    {
        &self.memtable
    }

    /// The segments, oldest first.
    pub fn segments(&self) -> (r: &Vec<Segment>)
        ensures
            r@ == self.segs(),
    {
        &self.segments
    }

    /// The log.
    pub fn wal(&self) -> (r: &Wal)
        ensures
            *r == self.journal(),
    {
        &self.wal
    }

    /// The index, if there is one.
    pub fn index(&self) -> (r: Option<&HnswIndex>)
        ensures
            r is Some == self.graph() is Some,
            r matches Some(g) ==> Some(*g) == self.graph(),
    {
        self.index.as_ref()
    }

    /// Whether the collection has an index.
    pub fn has_index(&self) -> (r: bool)
        ensures
            r == self.graph() is Some,
    {
        self.index.is_some()
    }

    /// What the caller is to do after records were appended from offset
    /// `from` of the log, the last of them numbered `seq`.
    fn written(&self, seq: u64, from: u64) -> (w: Written)
        ensures
            w.seq == seq,
            w.from == from,
            w.sync == (self.config.durability == Durability::FdatasyncEachBatch),
            w.flush_due == (self.wal.log().len() > WAL_FLUSH_THRESHOLD),
    {
        let sync = match self.config.durability {
            Durability::Buffered => false,
            Durability::FdatasyncEachBatch => true,
        };
        Written { seq, from, sync, flush_due: self.wal.file_size() > WAL_FLUSH_THRESHOLD }
    }

    /// Inserts or replaces a document: an insert record goes to the log,
    /// then the document into the memtable.
    ///
    /// Fails, changing nothing, with `WrongDimension` when the vector does
    /// not have the collection's dimension, and when the record cannot be
    /// written (see [`Wal::append`]).
    pub fn insert(&mut self, doc: Document) -> (r: Result<Written, Error>)
        requires
            old(self).wf(),
        ensures
            final(self).wf(),
            final(self).conf() == old(self).conf(),
            final(self).man() == old(self).man(),
            final(self).segs() == old(self).segs(),
            final(self).graph() == old(self).graph(),
            doc.vector@.len() != old(self).conf().dim ==> {
                &&& r matches Err(Error::WrongDimension { expected, got })
                &&& expected == old(self).conf().dim
                &&& got == doc.vector@.len()
                &&& final(self).journal().log() == old(self).journal().log()
                &&& final(self).journal().upcoming() == old(self).journal().upcoming()
                &&& state_of(final(self).mem()) == state_of(old(self).mem())
            },
            r matches Ok(w) ==> {
                let record = RecordView::Insert {
                    id: doc.id@,
                    vector: doc.vector@,
                    payload: text_of(doc.payload),
                };
                &&& w.seq == old(self).journal().upcoming()
                &&& w.from == old(self).journal().log().len()
                &&& w.sync == (old(self).conf().durability == Durability::FdatasyncEachBatch)
                &&& w.flush_due == (final(self).journal().log().len() > WAL_FLUSH_THRESHOLD)
                &&& final(self).journal().log() == old(self).journal().log() + record_bytes(
                    w.seq,
                    record,
                )
                &&& final(self).journal().upcoming() == w.seq + 1
                &&& state_of(final(self).mem()) == after_record(state_of(old(self).mem()), record)
            },
            ({
                let record = RecordView::Insert {
                    id: doc.id@,
                    vector: doc.vector@,
                    payload: text_of(doc.payload),
                };
                encodable(record, old(self).conf().dim as nat) && old(self).journal().upcoming()
                    < u64::MAX && old(self).mem().entries().len() < u32::MAX ==> r is Ok
            }),
            r is Err ==> {
                let record = RecordView::Insert {
                    id: doc.id@,
                    vector: doc.vector@,
                    payload: text_of(doc.payload),
                };
                &&& state_of(final(self).mem()) == state_of(old(self).mem())
                &&& final(self).journal().log() == old(self).journal().log() || final(self).journal().log() == old(self).journal().log() + record_bytes(
                    old(self).journal().upcoming(),
                    record,
                )
            },
    {
        if doc.vector.len() != self.config.dim {
            return Err(
                Error::WrongDimension { expected: self.config.dim, got: doc.vector.len() },
            );
        }
        let record = insert_record(&doc);
        let from = self.wal.file_size();
        let seq = match self.wal.append(&record, self.config.dim) {
            Ok(s) => s,
            Err(e) => { return Err(e); },
        };
        match self.memtable.insert(doc) {
            Ok(_) => {},
            Err(e) => { return Err(e); },
        }
        Ok(self.written(seq, from))
    }

    /// Deletes a document: a delete record goes to the log, then the id is
    /// tombstoned in the memtable. Says whether the memtable held the
    /// document.
    pub fn delete(&mut self, id: &str) -> (r: Result<(bool, Written), Error>)
        requires
            old(self).wf(),
        ensures
            final(self).wf(),
            final(self).conf() == old(self).conf(),
            final(self).man() == old(self).man(),
            final(self).segs() == old(self).segs(),
            final(self).graph() == old(self).graph(),
            r matches Ok(bw) ==> {
                let record = RecordView::Delete { id: id@ };
                &&& bw.0 == id_index(old(self).mem().entries(), id@) is Some
                &&& bw.1.seq == old(self).journal().upcoming()
                &&& bw.1.from == old(self).journal().log().len()
                &&& final(self).journal().log() == old(self).journal().log() + record_bytes(
                    bw.1.seq,
                    record,
                )
                &&& final(self).journal().upcoming() == bw.1.seq + 1
                &&& state_of(final(self).mem()) == after_record(state_of(old(self).mem()), record)
            },
            r is Err ==> {
                &&& final(self).journal().log() == old(self).journal().log()
                &&& final(self).journal().upcoming() == old(self).journal().upcoming()
                &&& state_of(final(self).mem()) == state_of(old(self).mem())
            },
            encodable(RecordView::Delete { id: id@ }, 0) && old(self).journal().upcoming()
                < u64::MAX ==> r is Ok,
    {
        let record = delete_record(id);
        let from = self.wal.file_size();
        let seq = match self.wal.append(&record, 0) {
            Ok(s) => s,
            Err(e) => { return Err(e); },
        };
        let existed = self.memtable.delete(id).is_some();
        Ok((existed, self.written(seq, from)))
    }

    /// Reads a document by its id (see [`visible`]).
    pub fn get(&self, id: &str) -> (r: Option<Document>)
        requires
            self.wf(),
        ensures
            document_of(r) == visible(
                self.mem().entries(),
                self.mem().tombstones(),
                self.files(),
                id@,
            ),
    {
        find_document(&self.memtable, &self.segments, id)
    }

    /// Counts that describe the collection; the sum over the segments is
    /// capped at `usize::MAX`.
    pub fn stats(&self) -> (r: CollectionStats)
        requires
            self.wf(),
        ensures
            r.memtable_docs == crate::memtable::active_rows(
                self.mem().entries(),
                self.mem().tombstones(),
            ).len(),
            r.segment_count == self.segs().len(),
            r.total_segment_docs == capped(docs_in(self.segs())),
            r.total_segment_docs == capped(crate::compaction::docs_in_files(self.files())),
    {
        proof {
            crate::compaction::law_docs_in(self.segments@);
        }
        let total = count_docs(&self.segments);
        CollectionStats {
            memtable_docs: self.memtable.active_count(),
            segment_count: self.segments.len(),
            total_segment_docs: total,
        }
    }
}

/// The documents of numbered rows.
pub open spec fn row_docs(rows: Seq<(u32, DocumentView)>) -> Seq<DocumentView> {
    Seq::new(rows.len(), |i: int| rows[i].1)
}

/// The insert records for a list of documents.
pub open spec fn insert_records(docs: Seq<DocumentView>) -> Seq<RecordView> {
    Seq::new(
        docs.len(),
        |i: int|
            RecordView::Insert { id: docs[i].id, vector: docs[i].vector, payload: docs[i].payload },
    )
}

/// The estimated size of a batch in bytes: per document, four bytes for
/// each component and the length of the id.
pub open spec fn batch_size(docs: Seq<DocumentView>) -> int
    decreases docs.len(),
{
    if docs.len() == 0 {
        0
    } else {
        batch_size(docs.drop_last()) + 4 * docs.last().vector.len() + vstd::utf8::encode_utf8(
            docs.last().id,
        ).len()
    }
}

/// The state of an empty memtable of dimension `dim`.
pub open spec fn empty_state(dim: nat) -> MemState {
    MemState {
        dim,
        entries: Seq::empty(),
        tombstones: Set::empty(),
        buffer: Seq::empty(),
        size: 0,
    }
}

/// How a search is to be carried out.
#[derive(Debug, Clone, Copy, PartialEq, Eq, Structural)]
pub enum SearchPlan {
    /// By scoring every document.
    Exact,
    /// Through the index: ask it for `fetch` nodes with a candidate list
    /// of `ef`.
    Approximate { fetch: usize, ef: usize },
}

/// The vectors of rows, in order.
pub open spec fn row_vectors(rows: Seq<(u32, DocumentView)>) -> Seq<Seq<u32>> {
    Seq::new(rows.len(), |i: int| rows[i].1.vector)
}

/// The vectors of a list as sequences.
pub open spec fn vectors_view(v: Seq<Vec<u32>>) -> Seq<Seq<u32>> {
    Seq::new(v.len(), |i: int| v[i]@)
}

/// The metric that the index of a collection is built with.
pub fn index_metric() -> (r: crate::distance::Distance)
    ensures
        r == crate::distance::Distance::Cosine,
{
    crate::distance::Distance::Cosine
}

/// The bytes of a file that may be there.
pub open spec fn file_view(file: Option<Vec<u8>>) -> Option<Seq<u8>> {
    match file {
        Some(bytes) => Some(bytes@),
        None => None,
    }
}

/// The estimated size of a batch, capped at `usize::MAX`.
pub fn estimate_batch_size(docs: &Vec<Document>) -> (r: usize)
    ensures
        r == (if batch_size(documents_view(docs@)) > usize::MAX {
            usize::MAX as int
        } else {
            batch_size(documents_view(docs@))
        }),
{
    let ghost all = documents_view(docs@);
    let mut sum: usize = 0;
    let mut i: usize = 0;
    assert(all.take(0) =~= Seq::empty());
    while i < docs.len()
        invariant
            i <= docs@.len(),
            all == documents_view(docs@),
            batch_size(all.take(i as int)) >= 0,
            sum == (if batch_size(all.take(i as int)) > usize::MAX {
                usize::MAX as int
            } else {
                batch_size(all.take(i as int))
            }),
        decreases docs@.len() - i,
    {
        proof {
            let next = all.take(i as int + 1);
            assert(next.drop_last() =~= all.take(i as int));
            assert(next.last() == all[i as int]);
        }
        let comps = docs[i].vector.len();
        let id_len = docs[i].id.as_str().as_bytes().len();
        let add: u128 = 4 * (comps as u128) + id_len as u128;
        let total: u128 = sum as u128 + add;
        sum = if total > usize::MAX as u128 {
            usize::MAX
        } else {
            total as usize
        };
        i += 1;
    }
    assert(all.take(docs@.len() as int) =~= all);
    sum
}

/// Whether record `i` of a batch numbered from `first` goes into the log:
/// it is encodable and a sequence number is left for it.
pub open spec fn loggable(records: Seq<RecordView>, dim: nat, first: u64, i: int) -> bool {
    encodable(records[i], dim) && first + i < u64::MAX
}

/// Whether document `i` of a batch goes into a memtable that was in state
/// `s` before the batch and holds the documents before it: its id is held
/// already, or an internal number is left for it.
pub open spec fn storable(s: MemState, docs: Seq<DocumentView>, first: u64, i: int) -> bool {
    let held = after_records(s, numbered(insert_records(docs), first).take(i)).entries;
    id_index(held, docs[i].id) is Some || held.len() < u32::MAX
}

/// Whether the whole batch goes into the log and into the memtable.
pub open spec fn batch_fits(docs: Seq<DocumentView>, dim: nat, first: u64, s: MemState) -> bool {
    &&& forall|i: int|
        0 <= i < docs.len() ==> #[trigger] loggable(insert_records(docs), dim, first, i)
    &&& forall|i: int| 0 <= i < docs.len() ==> #[trigger] storable(s, docs, first, i)
}

/// How a batch that was started ends at its first document that does not
/// go in, document `p`. Where a record does not go into the log, the log
/// holds the records before it and the memtable is as it was (`log1`,
/// `next1` and `state1` are log, next sequence number and memtable after
/// the call; `log0` and `state0` before it). Where all records went into
/// the log, the memtable holds the documents before `p`.
pub open spec fn batch_stopped(
    docs: Seq<DocumentView>,
    dim: nat,
    first: u64,
    log0: Seq<u8>,
    state0: MemState,
    log1: Seq<u8>,
    next1: u64,
    state1: MemState,
    p: int,
) -> bool {
    let records = insert_records(docs);
    &&& 0 <= p < docs.len()
    &&& if forall|i: int| 0 <= i < docs.len() ==> #[trigger] loggable(records, dim, first, i) {
        &&& forall|i: int| 0 <= i < p ==> #[trigger] storable(state0, docs, first, i)
        &&& !storable(state0, docs, first, p)
        &&& log1 == log0 + log_of(records, first)
        &&& next1 == first + docs.len()
        &&& state1 == after_records(state0, numbered(records, first).take(p))
    } else {
        &&& forall|i: int| 0 <= i < p ==> #[trigger] loggable(records, dim, first, i)
        &&& !loggable(records, dim, first, p)
        &&& log1 == log0 + log_of(records.take(p), first)
        &&& next1 == first + p
        &&& state1 == state0
    }
}

/// Whether a batch is started: it is not empty, every vector has the
/// dimension, and the estimated size is within the limit.
pub open spec fn batch_valid(docs: Seq<DocumentView>, dim: nat) -> bool {
    &&& docs.len() > 0
    &&& forall|k: int| 0 <= k < docs.len() ==> (#[trigger] docs[k]).vector.len() == dim
    &&& batch_size(docs) <= MAX_BATCH_SIZE
}

impl Collection {
    /// Inserts a batch of documents: one insert record each goes to the
    /// log, then the documents go into the memtable, in order.
    ///
    /// An empty batch does nothing. Fails, changing nothing, with
    /// `WrongDimension` when a vector does not have the collection's
    /// dimension, and with `InvalidArgument` when the estimated size of
    /// the batch is over 64 MiB. A batch that was started succeeds if
    /// every record is encodable with a sequence number left for it and
    /// every document has an internal number or gets one; else it stops at
    /// the first that does not go in (see [`batch_stopped`]).
    pub fn insert_batch(&mut self, docs: Vec<Document>) -> (r: Result<Option<Written>, Error>)
        requires
            old(self).wf(),
        ensures
            final(self).wf(),
            final(self).conf() == old(self).conf(),
            final(self).man() == old(self).man(),
            final(self).segs() == old(self).segs(),
            final(self).graph() == old(self).graph(),
            docs@.len() == 0 ==> r == Ok::<Option<Written>, Error>(None),
            (exists|k: int|
                0 <= k < docs@.len() && (#[trigger] docs@[k]).vector@.len() != old(self).conf().dim)
                ==> (r matches Err(Error::WrongDimension { expected, got }) && expected == old(
                self,
            ).conf().dim && exists|k: int| #[trigger]
                first_off(documents_view(docs@), old(self).conf().dim as nat, k) && got
                    == docs@[k].vector@.len()),
            (forall|k: int|
                0 <= k < docs@.len() ==> (#[trigger] docs@[k]).vector@.len() == old(self).conf().dim) && batch_size(documents_view(docs@)) > MAX_BATCH_SIZE
                ==> r matches Err(Error::InvalidArgument { .. }),
            docs@.len() == 0 || (exists|k: int|
                0 <= k < docs@.len() && (#[trigger] docs@[k]).vector@.len() != old(self).conf().dim)
                || batch_size(documents_view(docs@)) > MAX_BATCH_SIZE ==> {
                &&& final(self).journal().log() == old(self).journal().log()
                &&& final(self).journal().upcoming() == old(self).journal().upcoming()
                &&& state_of(final(self).mem()) == state_of(old(self).mem())
            },
            r matches Ok(None) ==> docs@.len() == 0,
            batch_valid(documents_view(docs@), old(self).conf().dim as nat) ==> (r matches Err(e)
                ==> (if forall|i: int|
                0 <= i < docs@.len() ==> #[trigger] loggable(
                    insert_records(documents_view(docs@)),
                    old(self).conf().dim as nat,
                    old(self).journal().upcoming(),
                    i,
                ) {
                e is InvalidArgument
            } else {
                e is Serialization || e is WalError
            })),
            batch_valid(documents_view(docs@), old(self).conf().dim as nat) ==> (r is Ok
                <==> batch_fits(
                documents_view(docs@),
                old(self).conf().dim as nat,
                old(self).journal().upcoming(),
                state_of(old(self).mem()),
            )),
            batch_valid(documents_view(docs@), old(self).conf().dim as nat) && r is Err
                ==> exists|p: int| #[trigger]
                batch_stopped(
                    documents_view(docs@),
                    old(self).conf().dim as nat,
                    old(self).journal().upcoming(),
                    old(self).journal().log(),
                    state_of(old(self).mem()),
                    final(self).journal().log(),
                    final(self).journal().upcoming(),
                    state_of(final(self).mem()),
                    p,
                ),
            r matches Ok(Some(w)) ==> {
                let records = insert_records(documents_view(docs@));
                let first = old(self).journal().upcoming();
                &&& docs@.len() > 0
                &&& w.seq == first + docs@.len() - 1
                &&& w.from == old(self).journal().log().len()
                &&& w.sync == (old(self).conf().durability == Durability::FdatasyncEachBatch)
                &&& w.flush_due == (final(self).journal().log().len() > WAL_FLUSH_THRESHOLD)
                &&& final(self).journal().log() == old(self).journal().log() + log_of(
                    records,
                    first,
                )
                &&& final(self).journal().upcoming() == first + docs@.len()
                &&& state_of(final(self).mem()) == after_records(
                    state_of(old(self).mem()),
                    numbered(records, first),
                )
            },
    {
        if docs.len() == 0 {
            return Ok(None);
        }
        let dim = self.config.dim;
        let mut i: usize = 0;
        while i < docs.len()
            invariant
                i <= docs@.len(),
                dim == self.config.dim,
                *self == *old(self),
                self.wf(),
                forall|k: int| 0 <= k < i ==> (#[trigger] docs@[k]).vector@.len() == dim,
            decreases docs@.len() - i,
        {
            if docs[i].vector.len() != dim {
                assert(documents_view(docs@)[i as int].vector.len() != dim);
                assert(first_off(documents_view(docs@), dim as nat, i as int)) by {
                    assert forall|j: int| 0 <= j < i implies (#[trigger] documents_view(
                        docs@,
                    )[j]).vector.len() == dim by {
                        assert(docs@[j].vector@.len() == dim);
                    }
                }
                return Err(Error::WrongDimension { expected: dim, got: docs[i].vector.len() });
            }
            i += 1;
        }
        if estimate_batch_size(&docs) > MAX_BATCH_SIZE {
            return Err(Error::invalid_arg("batch", "batch size exceeds maximum"));
        }
        let ghost all = documents_view(docs@);
        let ghost records = insert_records(all);
        let ghost first = self.wal.upcoming();
        let ghost log0 = self.wal.log();
        let ghost mem0 = state_of(self.memtable);
        let from = self.wal.file_size();
        let mut last_seq: u64 = 0;
        let mut j: usize = 0;
        proof {
            assert(records.take(0) =~= Seq::empty());
            assert(log0 + log_of(records.take(0), first) =~= log0);
        }
        while j < docs.len()
            invariant
                j <= docs@.len(),
                docs@.len() > 0,
                dim == self.config.dim,
                dim == old(self).conf().dim,
                forall|k: int| 0 <= k < docs@.len() ==> (#[trigger] docs@[k]).vector@.len() == dim,
                batch_size(documents_view(docs@)) <= MAX_BATCH_SIZE,
                self.wf(),
                self.conf() == old(self).conf(),
                self.man() == old(self).man(),
                self.segs() == old(self).segs(),
                self.graph() == old(self).graph(),
                self.mem() == old(self).mem(),
                all == documents_view(docs@),
                records == insert_records(all),
                first == old(self).journal().upcoming(),
                log0 == old(self).journal().log(),
                first + j <= u64::MAX,
                self.wal.upcoming() == first + j,
                self.wal.log() == log0 + log_of(records.take(j as int), first),
                j > 0 ==> last_seq == first + j - 1,
                mem0 == state_of(old(self).mem()),
                forall|i: int| 0 <= i < j ==> #[trigger] loggable(records, dim as nat, first, i),
            decreases docs@.len() - j,
        {
            let record = insert_record(&docs[j]);
            proof {
                assert(record@ == records[j as int]);
                lemma_log_of_push(records.take(j as int), first, records[j as int]);
                assert(records.take(j as int + 1) =~= records.take(j as int).push(
                    records[j as int],
                ));
            }
            last_seq = match self.wal.append(&record, dim) {
                Ok(s) => s,
                Err(e) => {
                    proof {
                        assert(!loggable(records, dim as nat, first, j as int));
                        assert(batch_stopped(
                            documents_view(docs@),
                            old(self).conf().dim as nat,
                            old(self).journal().upcoming(),
                            old(self).journal().log(),
                            state_of(old(self).mem()),
                            self.journal().log(),
                            self.journal().upcoming(),
                            state_of(self.mem()),
                            j as int,
                        ));
                    }
                    return Err(e);
                },
            };
            j += 1;
        }
        proof {
            assert(records.take(docs@.len() as int) =~= records);
        }
        let ghost state0 = state_of(self.memtable);
        let mut pending = docs;
        let mut rest: Vec<Document> = Vec::new();
        let ghost given = pending@;
        while pending.len() > 0
            invariant
                pending@.len() + rest@.len() == given.len(),
                forall|i: int| 0 <= i < pending@.len() ==> (#[trigger] pending@[i]) == given[i],
                forall|i: int|
                    0 <= i < rest@.len() ==> (#[trigger] rest@[i]) == given[given.len() - 1 - i],
            decreases pending@.len(),
        {
            match pending.pop() {
                Some(x) => {
                    rest.push(x);
                },
                None => {},
            }
        }
        let total = rest.len();
        let mut done: usize = 0;
        proof {
            assert(numbered(records, first).take(0) =~= Seq::empty());
        }
        while rest.len() > 0
            invariant
                self.wf(),
                docs@.len() > 0,
                forall|k: int|
                    0 <= k < docs@.len() ==> (#[trigger] docs@[k]).vector@.len() == old(self).conf().dim,
                batch_size(documents_view(docs@)) <= MAX_BATCH_SIZE,
                self.conf() == old(self).conf(),
                self.man() == old(self).man(),
                self.segs() == old(self).segs(),
                self.graph() == old(self).graph(),
                self.wal.upcoming() == first + given.len(),
                self.wal.log() == log0 + log_of(records, first),
                given == docs@,
                all == documents_view(given),
                records == insert_records(all),
                first + given.len() <= u64::MAX,
                done + rest@.len() == given.len(),
                given.len() == total,
                forall|i: int|
                    0 <= i < rest@.len() ==> (#[trigger] rest@[i]) == given[given.len() - 1 - i],
                state_of(self.memtable) == after_records(
                    state0,
                    numbered(records, first).take(done as int),
                ),
                state0 == mem0,
                mem0 == state_of(old(self).mem()),
                first == old(self).journal().upcoming(),
                log0 == old(self).journal().log(),
                self.memtable.dim() == old(self).conf().dim,
                forall|i: int|
                    0 <= i < given.len() ==> #[trigger] loggable(
                        records,
                        old(self).conf().dim as nat,
                        first,
                        i,
                    ),
                forall|i: int| 0 <= i < done ==> #[trigger] storable(mem0, all, first, i),
            decreases rest@.len(),
        {
            let doc = match rest.pop() {
                Some(x) => x,
                None => { return Ok(None); },
            };
            proof {
                let nums = numbered(records, first);
                let next = nums.take(done as int + 1);
                assert(next.drop_last() =~= nums.take(done as int));
                assert(next.last() == nums[done as int]);
                assert(doc@ == all[done as int]);
            }
            match self.memtable.insert(doc) {
                Ok(_) => {
                    assert(storable(mem0, all, first, done as int));
                },
                Err(e) => {
                    proof {
                        assert(!storable(mem0, all, first, done as int));
                        assert(batch_stopped(
                            documents_view(docs@),
                            old(self).conf().dim as nat,
                            old(self).journal().upcoming(),
                            old(self).journal().log(),
                            state_of(old(self).mem()),
                            self.journal().log(),
                            self.journal().upcoming(),
                            state_of(self.mem()),
                            done as int,
                        ));
                    }
                    return Err(e);
                },
            }
            done += 1;
        }
        proof {
            assert(numbered(records, first).take(given.len() as int) =~= numbered(records, first));
            assert(records.take(given.len() as int) =~= records);
        }
        Ok(Some(self.written(last_seq, from)))
    }

    /// The number of the segment that the next flush writes: one more than
    /// there are segments.
    pub fn next_segment_number(&self) -> (r: usize)
        ensures
            r == self.segs().len() + 1 || (r == usize::MAX && self.segs().len() == usize::MAX),
    {
        if self.segments.len() == usize::MAX {
            usize::MAX
        } else {
            self.segments.len() + 1
        }
    }

    /// What a flush of this collection into `filename` leaves in `next`,
    /// where `out` is the file it wrote, if it wrote one. A file is
    /// written only for documents that can be built into a segment; it is
    /// the segment of the memtable's documents that are not tombstoned,
    /// and becomes the newest segment; the manifest names it and takes 0
    /// as the last applied sequence number; and the log is emptied.
    /// Without a file, segments, manifest and log stay as they are.
    pub open spec fn flushed_into(
        &self,
        next: &Collection,
        filename: Seq<char>,
        out: Option<Seq<u8>>,
    ) -> bool {
        let rows = active_rows(self.mem().entries(), self.mem().tombstones());
        let docs = row_docs(rows);
        let dim = self.conf().dim;
        match out {
            Some(bytes) => {
                &&& buildable(dim as nat, docs)
                &&& bytes == segment_file(dim as u32, docs)
                &&& next.files() == self.files().push(bytes)
                &&& next.man().segments@.len() == self.man().segments@.len() + 1
                &&& forall|i: int|
                    0 <= i < self.man().segments@.len() ==> #[trigger] next.man().segments@[i]
                        == self.man().segments@[i]
                &&& next.man().segments@.last().filename@ == filename
                &&& next.man().segments@.last().doc_count == rows.len()
                &&& next.man().segments@.last().id_range == (
                    (self.mem().entries().len() - rows.len()) as u32,
                    self.mem().entries().len() as u32,
                )
                &&& next.man().last_wal_seq == 0
                &&& next.man().config == self.man().config
                &&& next.man().index_file == self.man().index_file
                &&& next.man().index_generation == self.man().index_generation
                &&& next.journal().log() == Seq::<u8>::empty()
                &&& next.journal().upcoming() == 1
            },
            None => {
                &&& next.segs() == self.segs()
                &&& next.man() == self.man()
                &&& next.journal() == self.journal()
            },
        }
    }

    /// Flushes the memtable into a new segment named `filename`.
    ///
    /// The memtable is replaced by an empty one. If it held documents that
    /// are not tombstoned, they are written, in order of their numbers,
    /// into a new segment, which becomes the newest; the manifest names it
    /// and takes 0 as the last applied sequence number; and the log is
    /// emptied. The file of the new segment is returned. Fails, with the
    /// segments, manifest and log unchanged, when the segment cannot be
    /// written (see [`SegmentBuilder::build`]).
    pub fn flush(&mut self, filename: &str) -> (r: Result<Option<Vec<u8>>, Error>)
        requires
            old(self).wf(),
        ensures
            final(self).wf(),
            final(self).conf() == old(self).conf(),
            final(self).graph() == old(self).graph(),
            state_of(final(self).mem()) == empty_state(old(self).conf().dim as nat),
            ({
                let rows = active_rows(old(self).mem().entries(), old(self).mem().tombstones());
                let docs = row_docs(rows);
                let dim = old(self).conf().dim;
                &&& rows.len() == 0 ==> r == Ok::<Option<Vec<u8>>, Error>(None)
                &&& rows.len() > 0 ==> !(r == Ok::<Option<Vec<u8>>, Error>(None))
                &&& r is Ok <==> rows.len() == 0 || buildable(dim as nat, docs)
                &&& r is Err ==> (r matches Err(Error::Serialization(_)))
                &&& r matches Ok(out) ==> old(self).flushed_into(
                    final(self),
                    filename@,
                    file_view(out),
                )
                &&& r is Err ==> old(self).flushed_into(final(self), filename@, None)
                &&& r matches Ok(Some(bytes)) ==> {
                    &&& bytes@ == segment_file(dim as u32, docs)
                    &&& final(self).files() == old(self).files().push(bytes@)
                    &&& final(self).man().segments@.len() == old(self).man().segments@.len() + 1
                    &&& forall|i: int|
                        0 <= i < old(self).man().segments@.len() ==> #[trigger] final(self).man().segments@[i] == old(self).man().segments@[i]
                    &&& final(self).man().segments@.last().filename@ == filename@
                    &&& final(self).man().segments@.last().doc_count == rows.len()
                    &&& final(self).man().segments@.last().id_range == (
                        (old(self).mem().entries().len() - rows.len()) as u32,
                        old(self).mem().entries().len() as u32,
                    )
                    &&& final(self).man().last_wal_seq == 0
                    &&& final(self).man().config == old(self).man().config
                    &&& final(self).man().index_file == old(self).man().index_file
                    &&& final(self).man().index_generation == old(self).man().index_generation
                    &&& final(self).journal().log() == Seq::<u8>::empty()
                    &&& final(self).journal().upcoming() == 1
                }
                &&& !(r matches Ok(Some(_))) ==> {
                    &&& final(self).segs() == old(self).segs()
                    &&& final(self).man() == old(self).man()
                    &&& final(self).journal() == old(self).journal()
                }
            }),
    {
        let dim = self.config.dim;
        let mut taken = Memtable::new(dim);
        std::mem::swap(&mut self.memtable, &mut taken);
        let ghost entries = taken.entries();
        let ghost rows_spec = active_rows(entries, taken.tombstones());
        proof {
            taken.lemma_entries();
            lemma_active_rows(entries, taken.tombstones());
        }
        if taken.is_empty() {
            return Ok(None);
        }
        let next_id = taken.id_mapping().next_id();
        let frozen = taken.freeze();
        let rows = frozen.iter_active_with_payload();
        if rows.len() == 0 {
            return Ok(None);
        }
        let ghost docs = row_docs(rows_spec);
        let mut builder = SegmentBuilder::new(dim);
        let mut i: usize = 0;
        assert(builder.docs() =~= docs.take(0));
        while i < rows.len()
            invariant
                i <= rows@.len(),
                rows@.len() <= u32::MAX,
                builder.wf(),
                builder.dim() == dim,
                rows_view(rows@) == rows_spec,
                docs == row_docs(rows_spec),
                builder.docs() == docs.take(i as int),
                forall|k: int| 0 <= k < docs.len() ==> (#[trigger] docs[k]).vector.len() == dim,
            decreases rows@.len() - i,
        {
            let doc = rows[i].1.duplicate();
            assert(doc@ == docs[i as int]) by {
                assert(rows_spec[i as int] == (rows@[i as int].0, rows@[i as int].1@));
            }
            match builder.add(doc) {
                Ok(()) => {},
                Err(e) => { return Err(e); },
            }
            assert(builder.docs() =~= docs.take(i as int + 1));
            i += 1;
        }
        assert(docs.take(rows@.len() as int) =~= docs);
        let bytes = match builder.build() {
            Ok(b) => b,
            Err(e) => { return Err(e); },
        };
        proof {
            lemma_segment_layout(dim as u32, docs);
        }
        let segment = match Segment::open(filename, bytes.clone()) {
            Ok(s) => s,
            Err(e) => { return Err(e); },
        };
        let count = rows.len();
        let ghost old_files = self.files();
        self.segments.push(segment);
        assert(self.files() =~= old_files.push(bytes@));
        self.manifest.add_segment(
            SegmentEntry {
                filename: filename.to_owned(),
                doc_count: count as u64,
                id_range: (next_id - count as u32, next_id),
            },
        );
        self.manifest.set_last_wal_seq(0);
        self.wal.reset();
        Ok(Some(bytes))
    }
}

/// The rows of the segment files one after another, oldest file first.
pub open spec fn segment_rows(files: Seq<Seq<u8>>) -> Seq<(u32, DocumentView)>
    decreases files.len(),
{
    if files.len() == 0 {
        Seq::empty()
    } else {
        segment_rows(files.drop_last()) + file_rows(files.last(), file_row_limit(files.last()))
    }
}

/// The vector that the segments hold for the node `n`: that of the oldest
/// segment that has one.
pub open spec fn vector_in(files: Seq<Seq<u8>>, n: u32) -> Option<Seq<u32>>
    decreases files.len(),
{
    if files.len() == 0 {
        None
    } else {
        match file_vector(files[0], n) {
            Some(v) => Some(v),
            None => vector_in(files.drop_first(), n),
        }
    }
}

/// The id and payload that the segments hold for the node `n`: those of
/// the oldest segment that has an id for it.
pub open spec fn located_in(files: Seq<Seq<u8>>, n: u32) -> Option<(Seq<char>, Option<Seq<char>>)>
    decreases files.len(),
{
    if files.len() == 0 {
        None
    } else {
        match file_external(files[0], n) {
            Some(id) => Some((id, file_payload(files[0], n))),
            None => located_in(files.drop_first(), n),
        }
    }
}

/// The plan for a search: through the index if approximate search is
/// asked for and there is an index built with the metric asked for, and
/// exact otherwise. Through the index, twice `top_k` nodes are fetched
/// when there is a filter, and the candidate list has the size asked for
/// or, if none was, the default of the index.
pub open spec fn plan_for(index: Option<HnswIndex>, search: Search) -> SearchPlan {
    match index {
        Some(g) => if search.wants_approximate() && g.metric() == search.metric() {
            SearchPlan::Approximate {
                fetch: if search.condition() is Some {
                    if 2 * search.limit() > usize::MAX {
                        usize::MAX
                    } else {
                        (2 * search.limit()) as usize
                    }
                } else {
                    search.limit()
                },
                ef: match search.scope() {
                    Some(ef) => ef,
                    None => g.settings().ef_search,
                },
            }
        } else {
            SearchPlan::Exact
        },
        None => SearchPlan::Exact,
    }
}

impl Collection {
    /// Decides how a search is to be carried out (see [`plan_for`]).
    pub fn search_plan(&self, search: &Search) -> (r: SearchPlan)
        ensures
            r == plan_for(self.graph(), *search),
    {
        if !search.is_approximate() {
            return SearchPlan::Exact;
        }
        match &self.index {
            Some(g) => {
                if !same_metric(g.distance(), search.distance_metric()) {
                    return SearchPlan::Exact;
                }
                let k = search.top_k_value();
                let fetch = if search.filter_ref().is_some() {
                    if k > usize::MAX / 2 {
                        usize::MAX
                    } else {
                        2 * k
                    }
                } else {
                    k
                };
                let ef = match search.ef_value() {
                    Some(ef) => ef,
                    None => g.params().ef_search,
                };
                SearchPlan::Approximate { fetch, ef }
            },
            None => SearchPlan::Exact,
        }
    }

    /// Checks the length of a query for an exact search: against the
    /// dimension of the memtable if it holds documents, else against that
    /// of the oldest segment if there is one.
    pub fn check_query(&self, query_len: usize) -> (r: Result<(), Error>)
        requires
            self.wf(),
        ensures
            ({
                let expected: Option<usize> = if self.mem().entries().len() > 0 {
                    Some(self.conf().dim)
                } else if self.segs().len() > 0 {
                    Some(self.segs()[0].head().dimension as usize)
                } else {
                    None
                };
                match expected {
                    Some(d) => if d == query_len {
                        r is Ok
                    } else {
                        r matches Err(Error::WrongDimension { expected: e, got }) && e == d && got
                            == query_len
                    },
                    None => r is Ok,
                }
            }),
    {
        if !self.memtable.is_empty() {
            if self.memtable.dimension() != query_len {
                return Err(
                    Error::WrongDimension { expected: self.memtable.dimension(), got: query_len },
                );
            }
        } else if self.segments.len() > 0 {
            let first = self.segments[0].dimension();
            if first != query_len {
                return Err(Error::WrongDimension { expected: first, got: query_len });
            }
        }
        Ok(())
    }

    /// The documents an exact search runs over: those of the memtable that
    /// are not tombstoned, then those of the segments from the oldest to
    /// the newest, each with its internal number where it is stored.
    pub fn scan(&self) -> (r: Vec<(u32, Document)>)
        requires
            self.wf(),
        ensures
            rows_view(r@) == active_rows(self.mem().entries(), self.mem().tombstones())
                + segment_rows(self.files()),
    {
        let mut out = self.memtable.iter();
        let ghost head = rows_view(out@);
        let ghost files = self.files();
        let mut s: usize = 0;
        proof {
            assert(files.take(0) =~= Seq::empty());
            assert(head + segment_rows(files.take(0)) =~= head);
        }
        while s < self.segments.len()
            invariant
                s <= self.segments@.len(),
                self.wf(),
                files == self.files(),
                rows_view(out@) == head + segment_rows(files.take(s as int)),
            decreases self.segments@.len() - s,
        {
            let rows = self.segments[s].iter();
            let ghost here = rows_view(rows@);
            let ghost before = rows_view(out@);
            proof {
                assert(files.take(s as int + 1).last() == files[s as int]);
                assert(files.take(s as int + 1).drop_last() =~= files.take(s as int));
            }
            let mut i: usize = 0;
            assert(before + here.take(0) =~= before);
            while i < rows.len()
                invariant
                    i <= rows@.len(),
                    here == rows_view(rows@),
                    rows_view(out@) == before + here.take(i as int),
                decreases rows@.len() - i,
            {
                let ghost mid = rows_view(out@);
                out.push((rows[i].0, rows[i].1.duplicate()));
                assert(rows_view(out@) =~= mid.push(here[i as int]));
                assert(before + here.take(i as int + 1) =~= (before + here.take(i as int)).push(
                    here[i as int],
                ));
                i += 1;
            }
            proof {
                assert(here.take(rows@.len() as int) =~= here);
                assert(head + segment_rows(files.take(s as int)) + here =~= head + (segment_rows(
                    files.take(s as int),
                ) + here));
            }
            s += 1;
        }
        assert(files.take(self.segments@.len() as int) =~= files);
        out
    }

    /// The vector of the node `internal_id` of the index (see
    /// [`vector_in`]).
    pub fn vector_of(&self, internal_id: u32) -> (r: Option<Vec<u32>>)
        requires
            self.wf(),
        ensures
            r is Some == vector_in(self.files(), internal_id) is Some,
            r matches Some(v) ==> Some(v@) == vector_in(self.files(), internal_id),
    {
        let ghost files = self.files();
        let mut s: usize = 0;
        assert(files.skip(0) =~= files);
        while s < self.segments.len()
            invariant
                s <= self.segments@.len(),
                self.wf(),
                files == self.files(),
                vector_in(files, internal_id) == vector_in(files.skip(s as int), internal_id),
            decreases self.segments@.len() - s,
        {
            proof {
                assert(files.skip(s as int)[0] == files[s as int]);
                assert(files.skip(s as int).drop_first() =~= files.skip(s as int + 1));
            }
            match self.segments[s].get_vector(internal_id) {
                Some(v) => { return Some(v); },
                None => {},
            }
            s += 1;
        }
        None
    }

    /// The id and payload of the node `internal_id` of the index (see
    /// [`located_in`]).
    pub fn locate(&self, internal_id: u32) -> (r: Option<(String, Option<String>)>)
        requires
            self.wf(),
        ensures
            r is Some == located_in(self.files(), internal_id) is Some,
            r matches Some(ip) ==> Some((ip.0@, text_of(ip.1))) == located_in(
                self.files(),
                internal_id,
            ),
    {
        let ghost files = self.files();
        let mut s: usize = 0;
        assert(files.skip(0) =~= files);
        while s < self.segments.len()
            invariant
                s <= self.segments@.len(),
                self.wf(),
                files == self.files(),
                located_in(files, internal_id) == located_in(files.skip(s as int), internal_id),
            decreases self.segments@.len() - s,
        {
            proof {
                assert(files.skip(s as int)[0] == files[s as int]);
                assert(files.skip(s as int).drop_first() =~= files.skip(s as int + 1));
            }
            match self.segments[s].get_external_id(internal_id) {
                Some(id) => {
                    let payload = self.segments[s].get_payload(internal_id);
                    return Some((id, payload));
                },
                None => {},
            }
            s += 1;
        }
        None
    }

    /// The vectors that an index is built over: those of the segments
    /// from the oldest to the newest, each in order of the numbers, then
    /// those of the documents of the memtable that are not tombstoned.
    /// Fails with `InvalidArgument` when there is none.
    pub fn index_vectors(&self) -> (r: Result<Vec<Vec<u32>>, Error>)
        requires
            self.wf(),
        ensures
            ({
                let want = row_vectors(segment_rows(self.files())) + row_vectors(
                    active_rows(self.mem().entries(), self.mem().tombstones()),
                );
                &&& want.len() == 0 ==> (r matches Err(Error::InvalidArgument { .. }))
                &&& want.len() > 0 ==> (r matches Ok(v) && vectors_view(v@) == want)
            }),
    {
        let rows = self.scan();
        let in_memory = self.memtable.active_count();
        let ghost held = active_rows(self.mem().entries(), self.mem().tombstones());
        let ghost stored = segment_rows(self.files());
        let ghost want = row_vectors(stored) + row_vectors(held);
        assert(rows_view(rows@).len() == rows@.len());
        assert(rows@.len() == held.len() + stored.len());
        if rows.len() == 0 {
            return Err(Error::invalid_arg("vectors", "cannot build index from empty collection"));
        }
        let mut out: Vec<Vec<u32>> = Vec::new();
        let mut i: usize = in_memory;
        while i < rows.len()
            invariant
                in_memory <= i <= rows@.len(),
                in_memory == held.len(),
                rows@.len() == held.len() + stored.len(),
                rows_view(rows@) == held + stored,
                out@.len() == i - in_memory,
                forall|j: int| 0 <= j < out@.len() ==> (#[trigger] out@[j])@ == stored[j].1.vector,
            decreases rows@.len() - i,
        {
            assert(rows_view(rows@)[i as int] == stored[i - in_memory]);
            out.push(rows[i].1.vector.clone());
            i += 1;
        }
        let mut k: usize = 0;
        while k < in_memory
            invariant
                k <= in_memory,
                in_memory == held.len(),
                in_memory <= rows@.len(),
                rows@.len() == held.len() + stored.len(),
                rows_view(rows@) == held + stored,
                out@.len() == stored.len() + k,
                forall|j: int|
                    0 <= j < stored.len() ==> (#[trigger] out@[j])@ == stored[j].1.vector,
                forall|j: int|
                    0 <= j < k ==> (#[trigger] out@[stored.len() + j])@ == held[j].1.vector,
            decreases in_memory - k,
        {
            assert(rows_view(rows@)[k as int] == held[k as int]);
            out.push(rows[k].1.vector.clone());
            k += 1;
        }
        proof {
            assert(vectors_view(out@).len() == want.len());
            assert forall|j: int| 0 <= j < want.len() implies vectors_view(out@)[j] == want[j] by {
                if j < stored.len() {
                    assert(out@[j]@ == stored[j].1.vector);
                    assert(want[j] == row_vectors(stored)[j]);
                } else {
                    let t = j - stored.len();
                    assert(out@[stored.len() + t]@ == held[t].1.vector);
                    assert(want[j] == row_vectors(held)[t]);
                }
            }
            assert(vectors_view(out@) =~= want);
        }
        Ok(out)
    }

    /// The vectors to build the index over after a merge: those of the
    /// documents that stay, if the collection has an index and documents
    /// stay; else the index is not rebuilt.
    pub fn rebuild_input(&self, merge: &Merge) -> (r: Option<Vec<Vec<u32>>>)
        ensures
            r is Some == (self.graph() is Some && merge.docs@.len() > 0),
            r matches Some(v) ==> vectors_view(v@) == Seq::new(
                merge.docs@.len(),
                |i: int| merge.docs@[i].vector@,
            ),
    {
        if self.index.is_none() || merge.docs.len() == 0 {
            return None;
        }
        let mut out: Vec<Vec<u32>> = Vec::new();
        let mut i: usize = 0;
        while i < merge.docs.len()
            invariant
                i <= merge.docs@.len(),
                out@.len() == i,
                forall|j: int| 0 <= j < i ==> (#[trigger] out@[j])@ == merge.docs@[j].vector@,
            decreases merge.docs@.len() - i,
        {
            out.push(merge.docs[i].vector.clone());
            i += 1;
        }
        assert(vectors_view(out@) =~= Seq::new(
            merge.docs@.len(),
            |i: int| merge.docs@[i].vector@,
        ));
        Some(out)
    }

    /// Takes `index` as the index of the collection; the manifest names
    /// the index file and counts one more rebuild.
    pub fn install_index(&mut self, index: HnswIndex) -> (r: Result<(), Error>)
        requires
            old(self).wf(),
            index.wf(),
        ensures
            final(self).wf(),
            final(self).conf() == old(self).conf(),
            final(self).segs() == old(self).segs(),
            final(self).mem() == old(self).mem(),
            final(self).journal() == old(self).journal(),
            old(self).man().index_generation == u32::MAX ==> {
                &&& r matches Err(Error::InvalidArgument { .. })
                &&& final(self).graph() == old(self).graph()
                &&& final(self).man() == old(self).man()
            },
            old(self).man().index_generation < u32::MAX ==> {
                &&& r is Ok
                &&& final(self).graph() == Some(index)
                &&& text_of(final(self).man().index_file) == Some(INDEX_FILE_NAME@)
                &&& final(self).man().index_generation == old(self).man().index_generation + 1
                &&& final(self).man().segments == old(self).man().segments
                &&& final(self).man().last_wal_seq == old(self).man().last_wal_seq
                &&& final(self).man().config == old(self).man().config
            },
    {
        if self.manifest.index_generation == u32::MAX {
            return Err(Error::invalid_arg("index", "index generations are used up"));
        }
        self.manifest.set_index_file(Some(INDEX_FILE_NAME.to_owned()));
        self.manifest.increment_index_generation();
        self.index = Some(index);
        Ok(())
    }

    /// Drops the index; the manifest names no index file.
    pub fn delete_index(&mut self)
        requires
            old(self).wf(),
        ensures
            final(self).wf(),
            final(self).graph() is None,
            final(self).man().index_file is None,
            final(self).man().index_generation == old(self).man().index_generation,
            final(self).man().segments == old(self).man().segments,
            final(self).man().last_wal_seq == old(self).man().last_wal_seq,
            final(self).man().config == old(self).man().config,
            final(self).conf() == old(self).conf(),
            final(self).segs() == old(self).segs(),
            final(self).mem() == old(self).mem(),
            final(self).journal() == old(self).journal(),
    {
        self.manifest.set_index_file(None);
        self.index = None;
    }

    /// First step of a compaction: flushes the memtable into a segment
    /// named `flush_name`, then merges all segments, dropping superseded
    /// versions and the documents whose ids were tombstoned before the
    /// flush, and writes the file of the one segment that is to replace
    /// them.
    ///
    /// Returns the file that the flush wrote, if it wrote one, and the
    /// merge. The flushed file is handed out whether or not the merge
    /// succeeds, since the collection holds its segment from then on (see
    /// [`Collection::flushed_into`]). The merge succeeds if the flush does
    /// and the documents that stay can be built into a segment, or none
    /// stays.
    pub fn compact_merge(&mut self, flush_name: &str) -> (r: (
        Option<Vec<u8>>,
        Result<Merge, Error>,
    ))
        requires
            old(self).wf(),
        ensures
            final(self).wf(),
            final(self).conf() == old(self).conf(),
            final(self).graph() == old(self).graph(),
            state_of(final(self).mem()) == empty_state(old(self).conf().dim as nat),
            old(self).flushed_into(final(self), flush_name@, file_view(r.0)),
            ({
                let rows = active_rows(old(self).mem().entries(), old(self).mem().tombstones());
                let dim = old(self).conf().dim as nat;
                let merged = kept(scan_order(final(self).files()), old(self).mem().tombstones());
                &&& r.0 is Some <==> rows.len() > 0 && buildable(dim, row_docs(rows))
                &&& r.1 is Ok <==> (rows.len() == 0 || buildable(dim, row_docs(rows))) && (
                merged.len() == 0 || buildable(dim, merged))
                &&& rows.len() > 0 && !buildable(dim, row_docs(rows)) ==> (r.1 matches Err(
                    Error::Serialization(_),
                ))
                &&& r.1 matches Err(e) ==> (e is Serialization || e is WrongDimension
                    || e is InvalidArgument)
            }),
            r.1 matches Ok(m) ==> forall|id: Seq<char>| #[trigger]
                visible(Seq::empty(), Set::empty(), m.files(), id) == visible(
                    old(self).mem().entries(),
                    old(self).mem().tombstones(),
                    old(self).files(),
                    id,
                ),
            r.1 matches Ok(m) ==> {
                let merged = kept(scan_order(final(self).files()), old(self).mem().tombstones());
                &&& m.wf()
                &&& documents_view(m.docs@) == merged
                &&& m.segments_merged == final(self).segs().len()
                &&& m.docs_before == capped(docs_in(final(self).segs()))
                &&& merged.len() == 0 ==> m.bytes is None
                &&& merged.len() > 0 ==> (m.bytes matches Some(b) && b@ == segment_file(
                    final(self).conf().dim as u32,
                    merged,
                ) && file_accepts(b@) && buildable(final(self).conf().dim as nat, merged))
            },
    {
        let deleted = self.memtable.collect_deleted_ids();
        let flushed = match self.flush(flush_name) {
            Ok(f) => f,
            Err(e) => { return (None, Err(e)); },
        };
        let merge = match merge_all(&self.segments, &deleted, self.config.dim) {
            Ok(m) => m,
            Err(e) => { return (flushed, Err(e)); },
        };
        proof {
            old(self).lemma_compaction_reads(self, merge.files());
        }
        (flushed, Ok(merge))
    }

    /// Where `mid` holds the segments of this collection after its
    /// memtable was flushed, and `after` is what a merge of them without
    /// the ids tombstoned here leaves, a read from `after` alone gives
    /// what a read here gives.
    proof fn lemma_compaction_reads(&self, mid: &Collection, after: Seq<Seq<u8>>)
        requires
            self.wf(),
            ({
                let dim = self.conf().dim as u32;
                let entries = self.mem().entries();
                let tombstones = self.mem().tombstones();
                let rows = active_rows(entries, tombstones);
                let merged = kept(scan_order(mid.files()), tombstones);
                &&& rows.len() > 0 ==> buildable(self.conf().dim as nat, row_docs(rows))
                &&& merged.len() > 0 ==> buildable(self.conf().dim as nat, merged)
                &&& mid.files() == flushed_files(dim, entries, tombstones, self.files())
                &&& after == merged_files(dim, mid.files(), tombstones)
            }),
        ensures
            forall|id: Seq<char>| #[trigger]
                visible(Seq::empty(), Set::empty(), after, id) == visible(
                    self.mem().entries(),
                    self.mem().tombstones(),
                    self.files(),
                    id,
                ),
    {
        self.law_parts();
        self.mem().lemma_entries();
        assert forall|id: Seq<char>| #[trigger]
            visible(Seq::empty(), Set::empty(), after, id) == visible(
                self.mem().entries(),
                self.mem().tombstones(),
                self.files(),
                id,
            ) by {
            law_compaction_keeps_reads(
                self.conf().dim as u32,
                self.mem().entries(),
                self.mem().tombstones(),
                self.files(),
                id,
            );
        }
    }

    /// Second step of a compaction: the segment written by the first step
    /// replaces all segments, `index`, if one was rebuilt over the merged
    /// documents, replaces the index, the manifest is changed to match
    /// (see [`apply_compaction`]), and the log is emptied. Returns what was
    /// done and the segment files that are no longer needed.
    pub fn compact_install(&mut self, merge: Merge, index: Option<HnswIndex>) -> (r: Result<
        (CompactionResult, Vec<String>),
        Error,
    >)
        requires
            old(self).wf(),
            index matches Some(g) ==> g.wf(),
            merge.wf(),
        ensures
            final(self).wf(),
            final(self).conf() == old(self).conf(),
            state_of(final(self).mem()) == state_of(old(self).mem()),
            index is Some && merge.bytes is Some && old(self).man().index_generation == u32::MAX
                ==> r matches Err(Error::InvalidArgument { .. }),
            !(index is Some && old(self).man().index_generation == u32::MAX) && (
            merge.bytes matches Some(b) && !file_accepts(b@)) ==> (r matches Err(e) && (
            e is Corruption || e is ChecksumMismatch)),
            r is Ok <==> !(index is Some && merge.bytes is Some && old(self).man().index_generation
                == u32::MAX) && (merge.bytes matches Some(b) ==> file_accepts(b@)),
            r is Err ==> {
                &&& final(self).segs() == old(self).segs()
                &&& final(self).man() == old(self).man()
                &&& final(self).graph() == old(self).graph()
                &&& final(self).journal() == old(self).journal()
            },
            r matches Ok(done) ==> {
                &&& final(self).files() == merge.files()
                &&& final(self).journal().log() == Seq::<u8>::empty()
                &&& final(self).journal().upcoming() == 1
                &&& manifest_compacted(
                    old(self).man(),
                    final(self).man(),
                    done.0.docs_after,
                    index is Some,
                )
                &&& final(self).man().last_wal_seq == 0
                &&& done.0.docs_before == merge.docs_before
                &&& done.0.segments_merged == merge.segments_merged
                &&& crate::database::names_view(done.1@) == (if merge.bytes is Some {
                    crate::database::names_without(
                        old(self).man().segment_names(),
                        COMPACTED_SEGMENT_NAME@,
                    )
                } else {
                    crate::database::names_view(old(self).man().segment_names())
                })
                &&& done.0.new_segment@ == (if merge.bytes is Some {
                    COMPACTED_SEGMENT_NAME@
                } else {
                    Seq::<char>::empty()
                })
                &&& match merge.bytes {
                    Some(b) => {
                        &&& final(self).files() == seq![b@]
                        &&& final(self).graph() == (if index is Some {
                            index
                        } else {
                            old(self).graph()
                        })
                        &&& done.0.docs_after == merge.docs@.len()
                        &&& done.0.index_rebuilt == index is Some
                        &&& final(self).man().segments@.len() == 1
                        &&& compacted_entry(final(self).man().segments@[0], merge.docs@.len() as usize)
                    },
                    None => {
                        &&& final(self).files() == Seq::<Seq<u8>>::empty()
                        &&& final(self).graph() is None
                        &&& done.0.docs_after == 0
                        &&& !done.0.index_rebuilt
                        &&& final(self).man().segments@.len() == 0
                        &&& final(self).man().index_file is None
                    },
                }
            },
    {
        match merge.bytes {
            Some(bytes) => {
                let rebuilt = index.is_some();
                if rebuilt && self.manifest.index_generation == u32::MAX {
                    return Err(Error::invalid_arg("index", "index generations are used up"));
                }
                let segment = match Segment::open(COMPACTED_SEGMENT_NAME, bytes) {
                    Ok(s) => s,
                    Err(e) => { return Err(e); },
                };
                let docs_after = merge.docs.len();
                let stale = apply_compaction(&mut self.manifest, docs_after, rebuilt);
                let mut segments: Vec<Segment> = Vec::new();
                segments.push(segment);
                self.segments = segments;
                assert(self.files() =~= seq![bytes@]);
                match index {
                    Some(g) => {
                        self.index = Some(g);
                    },
                    None => {},
                }
                self.wal.reset();
                Ok(
                    (
                        CompactionResult {
                            docs_before: merge.docs_before,
                            docs_after,
                            segments_merged: merge.segments_merged,
                            new_segment: COMPACTED_SEGMENT_NAME.to_owned(),
                            index_rebuilt: rebuilt,
                        },
                        stale,
                    ),
                )
            },
            None => {
                let stale = apply_compaction(&mut self.manifest, 0, false);
                self.segments = Vec::new();
                assert(self.files() =~= Seq::<Seq<u8>>::empty());
                self.index = None;
                self.wal.reset();
                Ok(
                    (
                        CompactionResult {
                            docs_before: merge.docs_before,
                            docs_after: 0,
                            segments_merged: merge.segments_merged,
                            new_segment: String::new(),
                            index_rebuilt: false,
                        },
                        stale,
                    ),
                )
            },
        }
    }
}

/// Whether two metrics are the same.
pub fn same_metric(a: crate::distance::Distance, b: crate::distance::Distance) -> (r: bool)
    ensures
        r == (a == b),
{
    a == b
}


/// A document that is not tombstoned has an active row, under its number.
pub proof fn lemma_active_row_of(
    entries: Seq<DocumentView>,
    tombstones: Set<Seq<char>>,
    i: int,
) -> (k: int)
    requires
        entries.len() <= u32::MAX,
        0 <= i < entries.len(),
        !tombstones.contains(entries[i].id),
    ensures
        0 <= k < active_rows(entries, tombstones).len(),
        active_rows(entries, tombstones)[k] == (i as u32, entries[i]),
    decreases entries.len(),
{
    let front = active_rows(entries.drop_last(), tombstones);
    if i == entries.len() - 1 {
        assert(entries.last() == entries[i]);
        front.len() as int
    } else {
        assert(entries.drop_last()[i] == entries[i]);
        let k = lemma_active_row_of(entries.drop_last(), tombstones, i);
        k
    }
}

/// Reading after a flush. A document of the memtable that is not
/// tombstoned is read back unchanged, by its id, once the memtable has
/// been flushed into a new segment behind the segments `files`.
pub proof fn law_read_after_flush(
    dim: u32,
    entries: Seq<DocumentView>,
    tombstones: Set<Seq<char>>,
    files: Seq<Seq<u8>>,
    i: int,
)
    requires
        entries.len() <= u32::MAX,
        crate::segment::distinct_ids(entries),
        0 <= i < entries.len(),
        !tombstones.contains(entries[i].id),
        buildable(dim as nat, row_docs(active_rows(entries, tombstones))),
    ensures
        visible(
            Seq::empty(),
            Set::empty(),
            files.push(segment_file(dim, row_docs(active_rows(entries, tombstones)))),
            entries[i].id,
        ) == Some(entries[i]),
{
    let rows = active_rows(entries, tombstones);
    let docs = row_docs(rows);
    let file = segment_file(dim, docs);
    let k = lemma_active_row_of(entries, tombstones, i);
    lemma_active_rows(entries, tombstones);
    assert(crate::segment::distinct_ids(docs)) by {
        assert forall|a: int, b: int| 0 <= a < b < docs.len() implies (#[trigger] docs[a]).id != (
        #[trigger] docs[b]).id by {
            assert(rows[a].0 < rows[b].0);
            assert(docs[a] == entries[rows[a].0 as int]);
            assert(docs[b] == entries[rows[b].0 as int]);
        }
    }
    assert(docs[k] == entries[i]);
    crate::segment::law_segment_round_trip(dim, docs, k);
    let after = files.push(file);
    assert(after.last() == file);
    assert(id_index(Seq::<DocumentView>::empty(), entries[i].id) is None);
}

/// Reading after a compaction. Let `docs` be the documents of all
/// segments in the order a merge meets them, newest first. A document
/// that is the latest version of its id and not tombstoned is read back
/// unchanged, by its id, from the one segment that the compaction leaves.
pub proof fn law_read_after_compaction(
    dim: u32,
    docs: Seq<DocumentView>,
    deleted: Set<Seq<char>>,
    i: int,
)
    requires
        0 <= i < docs.len(),
        !deleted.contains(docs[i].id),
        forall|j: int| 0 <= j < i ==> (#[trigger] docs[j]).id != docs[i].id,
        buildable(dim as nat, kept(docs, deleted)),
    ensures
        visible(
            Seq::empty(),
            Set::empty(),
            seq![segment_file(dim, kept(docs, deleted))],
            docs[i].id,
        ) == Some(docs[i]),
{
    let file = segment_file(dim, kept(docs, deleted));
    let k = crate::compaction::law_compaction_preserves(dim, docs, deleted, i);
    let files = seq![file];
    assert(files.last() == file);
    assert(id_index(Seq::<DocumentView>::empty(), docs[i].id) is None);
}

/// Whether every file of the list is accepted as a segment.
pub open spec fn files_accepted(files: Seq<Seq<u8>>) -> bool {
    forall|i: int| 0 <= i < files.len() ==> crate::segment::file_accepts(#[trigger] files[i])
}

/// The newest version of a document in accepted segments is the first
/// document with its id that a merge meets.
pub proof fn lemma_newest_is_first(files: Seq<Seq<u8>>, id: Seq<char>)
    requires
        files_accepted(files),
    ensures
        newest_in(files, id) == crate::compaction::first_with(scan_order(files), id),
    decreases files.len(),
{
    if files.len() > 0 {
        let file = files.last();
        assert(file == files[files.len() - 1]);
        assert(files_accepted(files.drop_last())) by {
            assert forall|i: int| 0 <= i < files.drop_last().len() implies crate::segment::file_accepts(
                #[trigger] files.drop_last()[i],
            ) by {
                assert(files.drop_last()[i] == files[i]);
            }
        }
        lemma_newest_is_first(files.drop_last(), id);
        crate::segment::law_accepted_reads(file, id);
        let d = crate::compaction::file_documents(file);
        assert(d =~= Seq::new(
            crate::segment::file_doc_count(file) as nat,
            |i: int| crate::segment::file_document(file, i),
        ));
        assert(crate::segment::distinct_ids(d));
        crate::compaction::lemma_first_with_concat(d, scan_order(files.drop_last()), id);
        crate::compaction::lemma_first_with(d, id);
        match file_internal(file, id) {
            Some(n) => {
                let k = n as int;
                assert(d[k] == crate::segment::file_document(file, k));
                crate::compaction::lemma_first_with_distinct(d, k);
            },
            None => {
                assert forall|j: int| 0 <= j < d.len() implies (#[trigger] d[j]).id != id by {
                    assert(d[j] == crate::segment::file_document(file, j));
                }
            },
        }
    }
}

/// Reads across a flush. What a read of any id gives is the same before
/// and after the memtable's documents that are not tombstoned have been
/// written into a new segment behind the segments `files`, as long as
/// the tombstones are kept.
pub proof fn law_flush_keeps_reads(
    dim: u32,
    entries: Seq<DocumentView>,
    tombstones: Set<Seq<char>>,
    files: Seq<Seq<u8>>,
    id: Seq<char>,
)
    requires
        entries.len() <= u32::MAX,
        crate::segment::distinct_ids(entries),
        active_rows(entries, tombstones).len() > 0 ==> buildable(
            dim as nat,
            row_docs(active_rows(entries, tombstones)),
        ),
    ensures
        visible(
            Seq::empty(),
            tombstones,
            flushed_files(dim, entries, tombstones, files),
            id,
        ) == visible(entries, tombstones, files, id),
{
    let rows = active_rows(entries, tombstones);
    let docs = row_docs(rows);
    let after = flushed_files(dim, entries, tombstones, files);
    lemma_active_rows(entries, tombstones);
    assert(id_index(Seq::<DocumentView>::empty(), id) is None);
    if !tombstones.contains(id) {
        assert(crate::segment::distinct_ids(docs)) by {
            assert forall|a: int, b: int| 0 <= a < b < docs.len() implies (#[trigger] docs[a]).id
                != (#[trigger] docs[b]).id by {
                assert(rows[a].0 < rows[b].0);
                assert(docs[a] == entries[rows[a].0 as int]);
                assert(docs[b] == entries[rows[b].0 as int]);
            }
        }
        if exists|i: int| 0 <= i < entries.len() && (#[trigger] entries[i]).id == id {
            let i = choose|i: int| 0 <= i < entries.len() && (#[trigger] entries[i]).id == id;
            let k = lemma_active_row_of(entries, tombstones, i);
            assert(docs[k] == entries[i]);
            crate::segment::law_segment_round_trip(dim, docs, k);
            assert(after.last() == segment_file(dim, docs));
            assert(DocumentView { id, vector: docs[k].vector, payload: docs[k].payload }
                == docs[k]);
        } else {
            if docs.len() > 0 {
                assert forall|k: int| 0 <= k < docs.len() implies (#[trigger] docs[k]).id != id by {
                    assert(docs[k] == entries[rows[k].0 as int]);
                }
                crate::segment::law_segment_absent(dim, docs, id);
                assert(after.last() == segment_file(dim, docs));
                assert(after.drop_last() =~= files);
            }
        }
    }
}

/// The segment files after a flush of the memtable's documents that are
/// not tombstoned: a new segment behind the others, if there are any.
pub open spec fn flushed_files(
    dim: u32,
    entries: Seq<DocumentView>,
    tombstones: Set<Seq<char>>,
    files: Seq<Seq<u8>>,
) -> Seq<Seq<u8>> {
    let docs = row_docs(active_rows(entries, tombstones));
    if docs.len() > 0 {
        files.push(segment_file(dim, docs))
    } else {
        files
    }
}

/// The segment files after a merge of `files` that drops the tombstoned
/// ids: the one segment of what the merge keeps, or none if it keeps
/// nothing.
pub open spec fn merged_files(dim: u32, files: Seq<Seq<u8>>, deleted: Set<Seq<char>>) -> Seq<
    Seq<u8>,
> {
    let merged = kept(scan_order(files), deleted);
    if merged.len() > 0 {
        seq![segment_file(dim, merged)]
    } else {
        Seq::empty()
    }
}

/// Reads across a merge. For accepted segments, what a read of any id
/// gives under the tombstones is what it gives, without tombstones, from
/// the one segment that the merge leaves: every document that could be
/// read is read back unchanged, and no other becomes readable.
pub proof fn law_merge_keeps_reads(
    dim: u32,
    files: Seq<Seq<u8>>,
    deleted: Set<Seq<char>>,
    id: Seq<char>,
)
    requires
        files_accepted(files),
        kept(scan_order(files), deleted).len() > 0 ==> buildable(
            dim as nat,
            kept(scan_order(files), deleted),
        ),
    ensures
        files_accepted(merged_files(dim, files, deleted)),
        visible(Seq::empty(), Set::empty(), merged_files(dim, files, deleted), id) == visible(
            Seq::empty(),
            deleted,
            files,
            id,
        ),
{
    let merged = kept(scan_order(files), deleted);
    let after = merged_files(dim, files, deleted);
    crate::compaction::lemma_first_with_kept(scan_order(files), deleted, id);
    lemma_newest_is_first(files, id);
    assert(id_index(Seq::<DocumentView>::empty(), id) is None);
    if merged.len() > 0 {
        lemma_segment_layout(dim, merged);
        assert(files_accepted(after));
        lemma_newest_is_first(after, id);
        crate::compaction::lemma_file_documents(dim, merged);
        assert(after.drop_last() =~= Seq::<Seq<u8>>::empty());
        assert(scan_order(after) =~= merged) by {
            assert(after.last() == segment_file(dim, merged));
            assert(scan_order(after.drop_last()) =~= Seq::<DocumentView>::empty());
        }
    }
}

/// Compaction preservation. Let a collection hold the documents
/// `entries` and the tombstones in its memtable and the accepted segments
/// `files`. After a compaction, which flushes the memtable, merges all
/// segments without the tombstoned ids, and starts with an empty
/// memtable, a read of any id gives what it gave before: the latest
/// version of every document that was not tombstoned, with the same
/// vector and payload, and nothing for any other id.
pub proof fn law_compaction_keeps_reads(
    dim: u32,
    entries: Seq<DocumentView>,
    tombstones: Set<Seq<char>>,
    files: Seq<Seq<u8>>,
    id: Seq<char>,
)
    requires
        entries.len() <= u32::MAX,
        crate::segment::distinct_ids(entries),
        files_accepted(files),
        active_rows(entries, tombstones).len() > 0 ==> buildable(
            dim as nat,
            row_docs(active_rows(entries, tombstones)),
        ),
        ({
            let mid = flushed_files(dim, entries, tombstones, files);
            kept(scan_order(mid), tombstones).len() > 0 ==> buildable(
                dim as nat,
                kept(scan_order(mid), tombstones),
            )
        }),
    ensures
        visible(
            Seq::empty(),
            Set::empty(),
            merged_files(dim, flushed_files(dim, entries, tombstones, files), tombstones),
            id,
        ) == visible(entries, tombstones, files, id),
{
    let docs = row_docs(active_rows(entries, tombstones));
    let mid = flushed_files(dim, entries, tombstones, files);
    law_flush_keeps_reads(dim, entries, tombstones, files, id);
    if docs.len() > 0 {
        lemma_segment_layout(dim, docs);
        assert(files_accepted(mid)) by {
            assert forall|i: int| 0 <= i < mid.len() implies crate::segment::file_accepts(
                #[trigger] mid[i],
            ) by {
                if i < files.len() {
                    assert(mid[i] == files[i]);
                }
            }
        }
    }
    law_merge_keeps_reads(dim, mid, tombstones, id);
}

} // verus!
