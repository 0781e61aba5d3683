//! Compaction: merging all segments into one.
//!
//! The segments are read from the newest to the oldest. The first version
//! met of a document is the latest one; later ones are dropped, and so is
//! every document whose id is tombstoned. What is left goes into one new
//! segment, and the manifest is changed to name only that.

use vstd::prelude::*;
use crate::codec::text_eq;
use crate::database::{names_view, names_without};
use crate::manifest::{entries_kept, Manifest, SegmentEntry};
use crate::memtable::Memtable;
use crate::distance::Distance;
use crate::error::Error;
use crate::hnsw::{HnswBuilder, HnswIndex, HnswParams};
use crate::segment::{
    all_dimension, buildable, distinct_ids, documents_view, file_accepts, file_internal, file_payload,
    file_row_limit, file_rows, file_vector, law_segment_round_trip, lemma_segment_layout,
    segment_file, Document, DocumentView, Segment, SegmentBuilder,
};
use crate::textset::TextSet;

verus! {

/// File name of the segment that a compaction writes.
pub const COMPACTED_SEGMENT_NAME: &'static str = "0001.ndb";

/// File name of the index.
pub const INDEX_FILE_NAME: &'static str = "index.hnsw";

/// What a compaction did.
#[derive(Debug, Clone)]
pub struct CompactionResult {
    /// Number of documents in all segments before.
    pub docs_before: usize,
    /// Number of documents in the new segment.
    pub docs_after: usize,
    /// Number of segments merged.
    pub segments_merged: usize,
    /// Path of the new segment, empty when no document was left.
    pub new_segment: String,
    /// Whether the index was rebuilt.
    pub index_rebuilt: bool,
}

/// Whether a document with id `id` is among `docs`.
pub open spec fn occurs(docs: Seq<DocumentView>, id: Seq<char>) -> bool {
    exists|j: int| 0 <= j < docs.len() && (#[trigger] docs[j]).id == id
}

/// What a merge keeps of the documents `docs`, met in this order: each
/// document that is the first with its id and is not tombstoned.
pub open spec fn kept(docs: Seq<DocumentView>, deleted: Set<Seq<char>>) -> Seq<DocumentView>
    decreases docs.len(),
{
    if docs.len() == 0 {
        Seq::empty()
    } else {
        let front = kept(docs.drop_last(), deleted);
        let d = docs.last();
        if occurs(docs.drop_last(), d.id) || deleted.contains(d.id) {
            front
        } else {
            front.push(d)
        }
    }
}

/// The documents of a segment file, in order of their numbers.
pub open spec fn file_documents(file: Seq<u8>) -> Seq<DocumentView> {
    let rows = file_rows(file, file_row_limit(file));
    Seq::new(rows.len(), |i: int| rows[i].1)
}

/// The documents of the segments in the order a merge meets them: the
/// newest segment first, each segment in order of its numbers.
pub open spec fn scan_order(files: Seq<Seq<u8>>) -> Seq<DocumentView>
    decreases files.len(),
{
    if files.len() == 0 {
        Seq::empty()
    } else {
        file_documents(files.last()) + scan_order(files.drop_last())
    }
}

/// The bytes of each segment of a list.
pub open spec fn segment_files(segments: Seq<Segment>) -> Seq<Seq<u8>> {
    Seq::new(segments.len(), |i: int| segments[i].bytes())
}

/// What a merge keeps holds no id twice and nothing tombstoned, and every
/// document kept is the first with its id among those met.
pub proof fn lemma_kept(docs: Seq<DocumentView>, deleted: Set<Seq<char>>)
    ensures
        distinct_ids(kept(docs, deleted)),
        kept(docs, deleted).len() <= docs.len(),
        forall|k: int|
            0 <= k < kept(docs, deleted).len() ==> !deleted.contains(
                (#[trigger] kept(docs, deleted)[k]).id,
            ) && occurs(docs, kept(docs, deleted)[k].id),
    decreases docs.len(),
{
    if docs.len() > 0 {
        let front = kept(docs.drop_last(), deleted);
        let d = docs.last();
        let all = kept(docs, deleted);
        lemma_kept(docs.drop_last(), deleted);
        assert forall|k: int| 0 <= k < all.len() implies !deleted.contains((#[trigger] all[k]).id)
            && occurs(docs, all[k].id) by {
            if k < front.len() {
                assert(all[k] == front[k]);
                let j = choose|j: int|
                    0 <= j < docs.drop_last().len() && (#[trigger] docs.drop_last()[j]).id
                        == front[k].id;
                assert(docs[j] == docs.drop_last()[j]);
            } else {
                assert(docs[docs.len() - 1].id == d.id);
            }
        }
        if !(occurs(docs.drop_last(), d.id) || deleted.contains(d.id)) {
            assert forall|a: int, b: int| 0 <= a < b < all.len() implies (#[trigger] all[a]).id
                != (#[trigger] all[b]).id by {
                assert(all[a] == front[a]);
                if b < front.len() {
                    assert(all[b] == front[b]);
                } else {
                    assert(occurs(docs.drop_last(), front[a].id));
                }
            }
        }
    }
}

/// The latest version of a document that is not tombstoned is kept by a
/// merge, unchanged: if `docs[i]` is the first document with its id and
/// the id is not tombstoned, some kept document equals it.
pub proof fn lemma_kept_latest(docs: Seq<DocumentView>, deleted: Set<Seq<char>>, i: int) -> (k:
    int)
    requires
        0 <= i < docs.len(),
        !deleted.contains(docs[i].id),
        forall|j: int| 0 <= j < i ==> (#[trigger] docs[j]).id != docs[i].id,
    ensures
        0 <= k < kept(docs, deleted).len(),
        kept(docs, deleted)[k] == docs[i],
    decreases docs.len(),
{
    let front = kept(docs.drop_last(), deleted);
    if i == docs.len() - 1 {
        assert forall|j: int| 0 <= j < docs.drop_last().len() implies (
        #[trigger] docs.drop_last()[j]).id != docs[i].id by {
            assert(docs.drop_last()[j] == docs[j]);
        }
        assert(docs.last() == docs[i]);
        front.len() as int
    } else {
        assert(docs.drop_last()[i] == docs[i]);
        assert forall|j: int| 0 <= j < i implies (#[trigger] docs.drop_last()[j]).id
            != docs.drop_last()[i].id by {
            assert(docs.drop_last()[j] == docs[j]);
        }
        let k = lemma_kept_latest(docs.drop_last(), deleted, i);
        k
    }
}

/// The first document with id `id` among `docs`.
pub open spec fn first_with(docs: Seq<DocumentView>, id: Seq<char>) -> Option<DocumentView>
    decreases docs.len(),
{
    if docs.len() == 0 {
        None
    } else {
        match first_with(docs.drop_last(), id) {
            Some(d) => Some(d),
            None => if docs.last().id == id {
                Some(docs.last())
            } else {
                None
            },
        }
    }
}

/// There is a first document with an id exactly if the id occurs, and it
/// carries the id.
pub proof fn lemma_first_with(docs: Seq<DocumentView>, id: Seq<char>)
    ensures
        first_with(docs, id) is Some == occurs(docs, id),
        first_with(docs, id) matches Some(d) ==> d.id == id,
    decreases docs.len(),
{
    if docs.len() > 0 {
        let front = docs.drop_last();
        lemma_first_with(front, id);
        if occurs(front, id) {
            let j = choose|j: int| 0 <= j < front.len() && (#[trigger] front[j]).id == id;
            assert(docs[j] == front[j]);
        }
        if occurs(docs, id) && !occurs(front, id) {
            let j = choose|j: int| 0 <= j < docs.len() && (#[trigger] docs[j]).id == id;
            if j < front.len() {
                assert(front[j] == docs[j]);
            }
        }
    }
}

/// Among documents with distinct ids, the first with the id of a document
/// is that document.
pub proof fn lemma_first_with_distinct(docs: Seq<DocumentView>, k: int)
    requires
        distinct_ids(docs),
        0 <= k < docs.len(),
    ensures
        first_with(docs, docs[k].id) == Some(docs[k]),
    decreases docs.len(),
{
    let front = docs.drop_last();
    let id = docs[k].id;
    if k == docs.len() - 1 {
        lemma_first_with(front, id);
        if occurs(front, id) {
            let j = choose|j: int| 0 <= j < front.len() && (#[trigger] front[j]).id == id;
            assert(front[j] == docs[j]);
        }
    } else {
        assert(distinct_ids(front)) by {
            assert forall|a: int, b: int| 0 <= a < b < front.len() implies (#[trigger] front[a]).id
                != (#[trigger] front[b]).id by {
                assert(front[a] == docs[a]);
                assert(front[b] == docs[b]);
            }
        }
        assert(front[k] == docs[k]);
        lemma_first_with_distinct(front, k);
    }
}

/// The first document with an id in two lists one after the other is the
/// first in the front list, or else the first in the back list.
pub proof fn lemma_first_with_concat(a: Seq<DocumentView>, b: Seq<DocumentView>, id: Seq<char>)
    ensures
        first_with(a + b, id) == (match first_with(a, id) {
            Some(d) => Some(d),
            None => first_with(b, id),
        }),
    decreases b.len(),
{
    if b.len() == 0 {
        assert(a + b =~= a);
    } else {
        lemma_first_with_concat(a, b.drop_last(), id);
        assert((a + b).drop_last() =~= a + b.drop_last());
        assert((a + b).last() == b.last());
    }
}

/// What a merge keeps under an id is the first document with that id,
/// unless the id is tombstoned.
pub proof fn lemma_first_with_kept(docs: Seq<DocumentView>, deleted: Set<Seq<char>>, id: Seq<char>)
    ensures
        first_with(kept(docs, deleted), id) == (if deleted.contains(id) {
            None
        } else {
            first_with(docs, id)
        }),
    decreases docs.len(),
{
    if docs.len() > 0 {
        let front = docs.drop_last();
        let d = docs.last();
        lemma_first_with_kept(front, deleted, id);
        lemma_first_with(front, id);
        lemma_first_with(front, d.id);
        if !(occurs(front, d.id) || deleted.contains(d.id)) {
            assert(kept(docs, deleted) == kept(front, deleted).push(d));
            assert(kept(docs, deleted).drop_last() =~= kept(front, deleted));
            assert(kept(docs, deleted).last() == d);
        }
    }
}

/// The documents of a segment file written for documents with distinct
/// ids are those documents.
pub proof fn lemma_file_documents(dim: u32, docs: Seq<DocumentView>)
    requires
        buildable(dim as nat, docs),
        distinct_ids(docs),
    ensures
        file_documents(segment_file(dim, docs)) == docs,
{
    crate::segment::law_segment_documents(dim, docs);
    assert(file_documents(segment_file(dim, docs)) =~= docs);
}

/// Compaction preservation. Let `docs` be the documents of all segments
/// in the order a merge meets them, newest first. A document that is the
/// latest version of its id and not tombstoned is found in the segment
/// written from what the merge keeps, under its id, with the same vector
/// and payload.
pub proof fn law_compaction_preserves(
    dim: u32,
    docs: Seq<DocumentView>,
    deleted: Set<Seq<char>>,
    i: int,
) -> (k: int)
    requires
        0 <= i < docs.len(),
        !deleted.contains(docs[i].id),
        forall|j: int| 0 <= j < i ==> (#[trigger] docs[j]).id != docs[i].id,
        buildable(dim as nat, kept(docs, deleted)),
    ensures
        0 <= k < kept(docs, deleted).len(),
        file_internal(segment_file(dim, kept(docs, deleted)), docs[i].id) == Some(k as u32),
        file_vector(segment_file(dim, kept(docs, deleted)), k as u32) == Some(docs[i].vector),
        file_payload(segment_file(dim, kept(docs, deleted)), k as u32) == docs[i].payload,
{
    let merged = kept(docs, deleted);
    lemma_kept(docs, deleted);
    let k = lemma_kept_latest(docs, deleted, i);
    law_segment_round_trip(dim, merged, k);
    k
}

/// The tombstoned ids of the memtable.
pub fn collect_deleted_ids(memtable: &Memtable) -> (r: TextSet)
    requires
        memtable.wf(),
    ensures
        r.wf(),
        r@ == memtable.tombstones(),
{
    memtable.collect_deleted_ids()
}

/// The ids of a list of documents.
pub open spec fn ids_of(docs: Seq<DocumentView>) -> Set<Seq<char>> {
    Set::new(|id: Seq<char>| occurs(docs, id))
}

/// Merges the segments, oldest first in the list: the latest version of
/// every document that is not tombstoned, in the order met.
pub fn merge_segments(segments: &Vec<Segment>, deleted_ids: &TextSet, dim: usize) -> (r: Vec<
    Document,
>)
    requires
        deleted_ids.wf(),
        forall|i: int| 0 <= i < segments@.len() ==> (#[trigger] segments@[i]).wf(),
    ensures
        documents_view(r@) == kept(scan_order(segment_files(segments@)), deleted_ids@),
{
    let ghost files = segment_files(segments@);
    let mut merged: Vec<Document> = Vec::new();
    let mut seen = TextSet::new();
    let mut s: usize = segments.len();
    let ghost mut met: Seq<DocumentView> = Seq::empty();
    proof {
        assert(files.skip(segments@.len() as int) =~= Seq::empty());
        assert(documents_view(merged@) =~= kept(met, deleted_ids@));
        assert(seen@ =~= ids_of(met));
    }
    while s > 0
        invariant
            s <= segments@.len(),
            files == segment_files(segments@),
            deleted_ids.wf(),
            seen.wf(),
            forall|i: int| 0 <= i < segments@.len() ==> (#[trigger] segments@[i]).wf(),
            met == scan_order(files.skip(s as int)),
            seen@ == ids_of(met),
            documents_view(merged@) == kept(met, deleted_ids@),
        decreases s,
    {
        s -= 1;
        let segment = &segments[s];
        let rows = segment.iter();
        let ghost here = file_documents(segment.bytes());
        let ghost before = met;
        proof {
            assert(files.skip(s as int).last() == files[files.len() - 1]);
            assert(here.len() == rows@.len());
        }
        let mut i: usize = 0;
        proof {
            assert(before + here.take(0) =~= before);
        }
        while i < rows.len()
            invariant
                i <= rows@.len(),
                deleted_ids.wf(),
                seen.wf(),
                here.len() == rows@.len(),
                forall|j: int| 0 <= j < rows@.len() ==> (#[trigger] rows@[j]).1@ == here[j],
                met == before + here.take(i as int),
                seen@ == ids_of(met),
                documents_view(merged@) == kept(met, deleted_ids@),
            decreases rows@.len() - i,
        {
            let doc = &rows[i].1;
            let ghost d = here[i as int];
            let ghost next = before + here.take(i as int + 1);
            proof {
                assert(next.drop_last() =~= met);
                assert(next.last() == d);
                assert(occurs(met, d.id) == seen@.contains(d.id));
            }
            if !seen.contains(doc.id.as_str()) {
                let _ = seen.insert(doc.id.clone());
                if !deleted_ids.contains(doc.id.as_str()) {
                    let ghost old_merged = documents_view(merged@);
                    merged.push(doc.duplicate());
                    assert(documents_view(merged@) =~= old_merged.push(d));
                }
            }
            proof {
                assert forall|id: Seq<char>| ids_of(next).contains(id) <==> ids_of(met).insert(
                    d.id,
                ).contains(id) by {
                    if occurs(next, id) {
                        let j = choose|j: int| 0 <= j < next.len() && (#[trigger] next[j]).id == id;
                        if j < met.len() {
                            assert(met[j] == next[j]);
                        }
                    }
                    if occurs(met, id) {
                        let j = choose|j: int| 0 <= j < met.len() && (#[trigger] met[j]).id == id;
                        assert(next[j] == met[j]);
                    }
                    if id == d.id {
                        assert(next[next.len() - 1].id == id);
                    }
                }
                assert(ids_of(next) =~= ids_of(met).insert(d.id));
                met = next;
            }
            i += 1;
        }
        proof {
            assert(here.take(rows@.len() as int) =~= here);
            lemma_scan_order_step(files, s as int);
        }
    }
    proof {
        assert(files.skip(0) =~= files);
    }
    merged
}

/// Meeting one more segment puts its documents behind those already met.
proof fn lemma_scan_order_step(files: Seq<Seq<u8>>, s: int)
    requires
        0 <= s < files.len(),
    ensures
        scan_order(files.skip(s)) == scan_order(files.skip(s + 1)) + file_documents(files[s]),
    decreases files.len() - s,
{
    let here = files.skip(s);
    if s == files.len() - 1 {
        assert(here.drop_last() =~= Seq::empty());
        assert(files.skip(s + 1) =~= Seq::empty());
        assert(here.last() == files[s]);
        assert(scan_order(here) =~= scan_order(files.skip(s + 1)) + file_documents(files[s]));
    } else {
        lemma_scan_order_step(files, s + 1);
        assert(here.last() == files[files.len() - 1]);
        assert(files.skip(s + 1).last() == files[files.len() - 1]);
        assert(here.drop_last() =~= files.subrange(s, files.len() - 1));
        lemma_scan_order_front(files.subrange(s, files.len() - 1));
        assert(files.subrange(s, files.len() - 1).drop_first() =~= files.skip(s
            + 1).drop_last());
        assert(files.subrange(s, files.len() - 1)[0] == files[s]);
        assert(scan_order(here) =~= scan_order(files.skip(s + 1)) + file_documents(files[s]));
    }
}

/// The oldest segment is met last.
proof fn lemma_scan_order_front(files: Seq<Seq<u8>>)
    requires
        files.len() > 0,
    ensures
        scan_order(files) == scan_order(files.drop_first()) + file_documents(files[0]),
    decreases files.len(),
{
    if files.len() == 1 {
        assert(files.drop_last() =~= Seq::empty());
        assert(files.drop_first() =~= Seq::empty());
        assert(scan_order(files) =~= scan_order(files.drop_first()) + file_documents(files[0]));
    } else {
        lemma_scan_order_front(files.drop_last());
        assert(files.drop_last().drop_first() =~= files.drop_first().drop_last());
        assert(files.drop_first().last() == files.last());
        assert(files.drop_last()[0] == files[0]);
        assert(scan_order(files) =~= scan_order(files.drop_first()) + file_documents(files[0]));
    }
}

/// The entry of the segment that a compaction leaves, for `count`
/// documents.
pub open spec fn compacted_entry(e: SegmentEntry, count: usize) -> bool {
    &&& e.filename@ == COMPACTED_SEGMENT_NAME@
    &&& e.doc_count == count as u64
    &&& e.id_range == (0u32, (count as u64 % 0x1_0000_0000u64) as u32)
}

/// Whether document `k` is the first whose vector does not have `dim`
/// components.
pub open spec fn first_off(docs: Seq<DocumentView>, dim: nat, k: int) -> bool {
    &&& 0 <= k < docs.len()
    &&& docs[k].vector.len() != dim
    &&& forall|j: int| 0 <= j < k ==> (#[trigger] docs[j]).vector.len() == dim
}

/// Whether `after` is the manifest `before` changed for a compaction that
/// left `docs_after` documents: configuration and version stay, the last
/// applied sequence number is 0, and the manifest names no segment and no
/// index where nothing is left, else the one new segment and, where the
/// index was rebuilt, the index file with the next generation.
pub open spec fn manifest_compacted(
    before: Manifest,
    after: Manifest,
    docs_after: usize,
    index_rebuilt: bool,
) -> bool {
    &&& after.config == before.config
    &&& after.version == before.version
    &&& after.last_wal_seq == 0
    &&& docs_after == 0 ==> {
        &&& after.segments@.len() == 0
        &&& after.index_file is None
        &&& after.index_generation == before.index_generation
    }
    &&& docs_after > 0 ==> {
        &&& after.segments@.len() == 1
        &&& compacted_entry(after.segments@[0], docs_after)
        &&& index_rebuilt ==> {
            &&& crate::codec::text_of(after.index_file) == Some(INDEX_FILE_NAME@)
            &&& after.index_generation == before.index_generation + 1
        }
        &&& !index_rebuilt ==> {
            &&& after.index_file == before.index_file
            &&& after.index_generation == before.index_generation
        }
    }
}

/// Changes the manifest for a compaction that left `docs_after`
/// documents, and returns the segment files that are no longer needed.
///
/// With no document left, the manifest names no segment and no index.
/// Otherwise it names the one new segment, and, where the index was
/// rebuilt, the index file, with the generation counted up. In both cases
/// the last applied log sequence number is 0. The new segment's file is
/// never among the files returned.
pub fn apply_compaction(manifest: &mut Manifest, docs_after: usize, index_rebuilt: bool) -> (r: Vec<
    String,
>)
    requires
        index_rebuilt ==> old(manifest).index_generation < u32::MAX,
    ensures
        manifest_compacted(*old(manifest), *final(manifest), docs_after, index_rebuilt),
        final(manifest).config == old(manifest).config,
        final(manifest).version == old(manifest).version,
        final(manifest).last_wal_seq == 0,
        docs_after == 0 ==> {
            &&& final(manifest).segments@.len() == 0
            &&& final(manifest).index_file is None
            &&& final(manifest).index_generation == old(manifest).index_generation
        },
        docs_after > 0 ==> {
            &&& final(manifest).segments@.len() == 1
            &&& compacted_entry(final(manifest).segments@[0], docs_after)
            &&& index_rebuilt ==> {
                &&& crate::codec::text_of(final(manifest).index_file) == Some(INDEX_FILE_NAME@)
                &&& final(manifest).index_generation == old(manifest).index_generation + 1
            }
            &&& !index_rebuilt ==> {
                &&& final(manifest).index_file == old(manifest).index_file
                &&& final(manifest).index_generation == old(manifest).index_generation
            }
        },
        names_view(r@) == (if docs_after == 0 {
            names_view(old(manifest).segment_names())
        } else {
            names_without(old(manifest).segment_names(), COMPACTED_SEGMENT_NAME@)
        }),
{
    let old_filenames = manifest.segment_filenames();
    proof {
        lemma_all_removed(manifest.segments@, old_filenames@);
    }
    manifest.remove_segments(&old_filenames);
    let ghost names = old(manifest).segment_names();
    if docs_after == 0 {
        manifest.set_index_file(None);
        manifest.set_last_wal_seq(0);
        assert(names_view(old_filenames@) =~= names_view(names));
        return old_filenames;
    }
    if index_rebuilt {
        manifest.set_index_file(Some(INDEX_FILE_NAME.to_owned()));
        manifest.increment_index_generation();
    }
    manifest.add_segment(
        SegmentEntry {
            filename: COMPACTED_SEGMENT_NAME.to_owned(),
            doc_count: docs_after as u64,
            id_range: (0, (docs_after as u64 % 0x1_0000_0000u64) as u32),
        },
    );
    manifest.set_last_wal_seq(0);
    let mut stale: Vec<String> = Vec::new();
    let mut i: usize = 0;
    proof {
        assert(old_filenames@.take(0) =~= Seq::empty());
        assert(names_view(stale@) =~= names_without(
            old_filenames@.take(0),
            COMPACTED_SEGMENT_NAME@,
        ));
    }
    while i < old_filenames.len()
        invariant
            i <= old_filenames@.len(),
            names_view(stale@) == names_without(
                old_filenames@.take(i as int),
                COMPACTED_SEGMENT_NAME@,
            ),
        decreases old_filenames@.len() - i,
    {
        proof {
            let next = old_filenames@.take(i as int + 1);
            assert(next.drop_last() =~= old_filenames@.take(i as int));
            assert(next.last() == old_filenames@[i as int]);
        }
        if !text_eq(old_filenames[i].as_str(), COMPACTED_SEGMENT_NAME) {
            let ghost before = names_view(stale@);
            stale.push(old_filenames[i].clone());
            assert(names_view(stale@) =~= before.push(old_filenames@[i as int]@));
        }
        i += 1;
    }
    proof {
        assert(old_filenames@.take(old_filenames@.len() as int) =~= old_filenames@);
        assert(names_view(old_filenames@) =~= names_view(names));
        lemma_names_without(old_filenames@, names, COMPACTED_SEGMENT_NAME@);
    }
    stale
}

/// Which names are left depends on the texts of the names alone.
proof fn lemma_names_without(a: Seq<String>, b: Seq<String>, name: Seq<char>)
    requires
        names_view(a) == names_view(b),
    ensures
        names_without(a, name) == names_without(b, name),
    decreases a.len(),
{
    assert(a.len() == names_view(a).len());
    assert(b.len() == names_view(b).len());
    if a.len() > 0 {
        assert(names_view(a)[a.len() - 1] == a.last()@);
        assert(names_view(b)[b.len() - 1] == b.last()@);
        assert(names_view(a.drop_last()) =~= names_view(a).drop_last());
        assert(names_view(b.drop_last()) =~= names_view(b).drop_last());
        lemma_names_without(a.drop_last(), b.drop_last(), name);
    }
}

/// Removing the segments with the names of all segments leaves none.
proof fn lemma_all_removed(segments: Seq<SegmentEntry>, names: Seq<String>)
    requires
        names.len() >= segments.len(),
        forall|i: int| 0 <= i < segments.len() ==> (#[trigger] names[i])@ == segments[i].filename@,
    ensures
        entries_kept(segments, names).len() == 0,
    decreases segments.len(),
{
    if segments.len() > 0 {
        lemma_all_removed(segments.drop_last(), names);
        assert(names[segments.len() - 1]@ == segments.last().filename@);
    }
}

/// Whether a file name is that of a temporary segment file: it ends in
/// `.ndb.tmp`.
pub open spec fn temp_segment_name(name: Seq<u8>) -> bool {
    name.len() >= 8 && name.subrange(name.len() - 8, name.len() as int) == seq![
        46u8,
        110u8,
        100u8,
        98u8,
        46u8,
        116u8,
        109u8,
        112u8,
    ]
}

/// Decides whether a file in the segments directory is a stray temporary
/// segment file.
pub fn is_temp_segment(name: &str) -> (r: bool)
    ensures
        r == temp_segment_name(vstd::utf8::encode_utf8(name@)),
{
    let b = name.as_bytes();
    let n = b.len();
    if n < 8 {
        return false;
    }
    let r = b[n - 8] == 46 && b[n - 7] == 110 && b[n - 6] == 100 && b[n - 5] == 98 && b[n - 4]
        == 46 && b[n - 3] == 116 && b[n - 2] == 109 && b[n - 1] == 112;
    proof {
        let tail = b@.subrange(n - 8, n as int);
        let want = seq![46u8, 110u8, 100u8, 98u8, 46u8, 116u8, 109u8, 112u8];
        if r {
            assert(tail =~= want);
        } else {
            if tail == want {
                assert(tail[0] == want[0]);
                assert(tail[1] == want[1]);
                assert(tail[2] == want[2]);
                assert(tail[3] == want[3]);
                assert(tail[4] == want[4]);
                assert(tail[5] == want[5]);
                assert(tail[6] == want[6]);
                assert(tail[7] == want[7]);
            }
        }
    }
    r
}

/// The sum of the document counts of the segments.
pub open spec fn docs_in(segments: Seq<Segment>) -> int
    decreases segments.len(),
{
    if segments.len() == 0 {
        0
    } else {
        docs_in(segments.drop_last()) + segments.last().head().doc_count as usize
    }
}

/// The sum of the document counts in the headers of the files.
pub open spec fn docs_in_files(files: Seq<Seq<u8>>) -> int
    decreases files.len(),
{
    if files.len() == 0 {
        0
    } else {
        docs_in_files(files.drop_last()) + crate::segment::file_doc_count(files.last()) as usize
    }
}

/// The document counts of well-formed segments are those in the headers
/// of their files.
pub proof fn law_docs_in(segments: Seq<Segment>)
    requires
        forall|i: int| 0 <= i < segments.len() ==> (#[trigger] segments[i]).wf(),
    ensures
        docs_in(segments) == docs_in_files(segment_files(segments)),
    decreases segments.len(),
{
    if segments.len() > 0 {
        let front = segments.drop_last();
        assert forall|i: int| 0 <= i < front.len() implies (#[trigger] front[i]).wf() by {
            assert(front[i] == segments[i]);
        }
        law_docs_in(front);
        assert(segment_files(segments).drop_last() =~= segment_files(front));
        assert(segment_files(segments).last() == segments.last().bytes());
        assert(segments.last() == segments[segments.len() - 1]);
        segments.last().law_header();
    }
}

/// `n`, or `usize::MAX` if that is smaller.
pub open spec fn capped(n: int) -> usize {
    if n > usize::MAX {
        usize::MAX
    } else {
        n as usize
    }
}

/// The number of documents in the segments, capped at `usize::MAX`.
pub fn count_docs(segments: &Vec<Segment>) -> (r: usize)
    ensures
        r == capped(docs_in(segments@)),
{
    let mut total: usize = 0;
    let mut i: usize = 0;
    assert(segments@.take(0) =~= Seq::empty());
    while i < segments.len()
        invariant
            i <= segments@.len(),
            docs_in(segments@.take(i as int)) >= 0,
            total == capped(docs_in(segments@.take(i as int))),
        decreases segments@.len() - i,
    {
        proof {
            let next = segments@.take(i as int + 1);
            assert(next.drop_last() =~= segments@.take(i as int));
            assert(next.last() == segments@[i as int]);
        }
        let n = segments[i].doc_count();
        total = if n > usize::MAX - total {
            usize::MAX
        } else {
            total + n
        };
        i += 1;
    }
    assert(segments@.take(segments@.len() as int) =~= segments@);
    total
}


/// Writes the segment file for `docs` and opens it.
///
/// Fails with `InvalidArgument` when there are no documents, with
/// `WrongDimension` when a vector does not have `dim` components, and
/// when the segment cannot be written (see [`SegmentBuilder::build`]).
pub fn write_segment_temp(docs: &Vec<Document>, dim: usize) -> (r: Result<
    (Vec<u8>, Segment),
    Error,
>)
    ensures
        docs@.len() == 0 ==> r matches Err(Error::InvalidArgument { .. }),
        buildable(dim as nat, documents_view(docs@)) ==> r is Ok,
        0 < docs@.len() <= u32::MAX && !all_dimension(documents_view(docs@), dim as nat)
            ==> (r matches Err(Error::WrongDimension { expected, got }) && expected == dim
            && exists|k: int| #[trigger]
            first_off(documents_view(docs@), dim as nat, k) && got == docs@[k].vector@.len()),
        docs@.len() > u32::MAX && all_dimension(documents_view(docs@), dim as nat)
            ==> r matches Err(Error::InvalidArgument { .. }),
        0 < docs@.len() <= u32::MAX && all_dimension(documents_view(docs@), dim as nat)
            && !buildable(dim as nat, documents_view(docs@)) ==> r matches Err(
            Error::Serialization(_),
        ),
        r matches Err(e) ==> e is WrongDimension || e is InvalidArgument || e is Serialization,
        r matches Ok(bs) ==> {
            &&& buildable(dim as nat, documents_view(docs@))
            &&& bs.0@ == segment_file(dim as u32, documents_view(docs@))
            &&& file_accepts(bs.0@)
            &&& bs.1.wf()
            &&& bs.1.bytes() == bs.0@
        },
{
    if docs.len() == 0 {
        return Err(Error::invalid_arg("docs", "cannot create empty segment"));
    }
    let ghost all = documents_view(docs@);
    let mut builder = SegmentBuilder::new(dim);
    let mut k: usize = 0;
    assert(builder.docs() =~= all.take(0));
    while k < docs.len()
        invariant
            k <= docs@.len(),
            docs@.len() > 0,
            builder.wf(),
            builder.dim() == dim,
            all == documents_view(docs@),
            builder.docs() == all.take(k as int),
            forall|j: int| 0 <= j < k ==> (#[trigger] all[j]).vector.len() == dim,
            k <= u32::MAX,
        decreases docs@.len() - k,
    {
        match builder.add(docs[k].duplicate()) {
            Ok(()) => {},
            Err(e) => {
                proof {
                    if buildable(dim as nat, all) {
                        assert(all[k as int].vector.len() == dim);
                    }
                    if all_dimension(all, dim as nat) {
                        assert(all[k as int].vector.len() == dim);
                    }
                    if all[k as int].vector.len() != dim {
                        assert(first_off(all, dim as nat, k as int));
                        assert(docs@[k as int].vector@.len() == all[k as int].vector.len());
                    }
                }
                return Err(e);
            },
        }
        assert(builder.docs() =~= all.take(k as int + 1));
        k += 1;
    }
    assert(all.take(docs@.len() as int) =~= all);
    let bytes = match builder.build() {
        Ok(b) => b,
        Err(e) => { return Err(e); },
    };
    proof {
        lemma_segment_layout(dim as u32, all);
    }
    let segment = match Segment::open(COMPACTED_SEGMENT_NAME, bytes.clone()) {
        Ok(s) => s,
        Err(e) => { return Err(e); },
    };
    Ok((bytes, segment))
}

/// What a merge of all segments found.
#[derive(Debug)]
pub struct Merge {
    /// The documents that stay, in the order they go into the new segment.
    pub docs: Vec<Document>,
    /// The file of the new segment; none when no document stays.
    pub bytes: Option<Vec<u8>>,
    /// Number of documents in all segments before.
    pub docs_before: usize,
    /// Number of segments merged.
    pub segments_merged: usize,
}

impl Merge {
    /// A merge has a file exactly if documents stay.
    pub open spec fn wf(&self) -> bool {
        self.bytes is Some == (self.docs@.len() > 0)
    }

    /// The segment files that the merge leaves: its file, if it has one.
    pub open spec fn files(&self) -> Seq<Seq<u8>> {
        match self.bytes {
            Some(b) => seq![b@],
            None => Seq::empty(),
        }
    }
}

/// Merges all segments: of the documents met from the newest segment to
/// the oldest, keeps the first with each id unless the id is among
/// `deleted_ids`, and writes the file of the one segment that is to
/// replace them, if any document stays.
///
/// Fails when documents stay that cannot be built into a segment (see
/// [`write_segment_temp`]).
pub fn merge_all(segments: &Vec<Segment>, deleted_ids: &TextSet, dim: usize) -> (r: Result<
    Merge,
    Error,
>)
    requires
        deleted_ids.wf(),
        forall|i: int| 0 <= i < segments@.len() ==> (#[trigger] segments@[i]).wf(),
    ensures
        ({
            let merged = kept(scan_order(segment_files(segments@)), deleted_ids@);
            &&& r is Ok <==> merged.len() == 0 || buildable(dim as nat, merged)
            &&& merged.len() <= u32::MAX && !all_dimension(merged, dim as nat) ==> (r matches Err(
                Error::WrongDimension { expected, got },
            ) && expected == dim && exists|k: int| #[trigger]
                first_off(merged, dim as nat, k) && got == merged[k].vector.len())
            &&& merged.len() > u32::MAX && all_dimension(merged, dim as nat) ==> (r matches Err(
                Error::InvalidArgument { .. },
            ))
            &&& 0 < merged.len() <= u32::MAX && all_dimension(merged, dim as nat) && !buildable(
                dim as nat,
                merged,
            ) ==> (r matches Err(Error::Serialization(_)))
            &&& r matches Err(e) ==> (e is Serialization || e is WrongDimension
                || e is InvalidArgument)
            &&& r matches Ok(m) ==> {
                &&& m.wf()
                &&& documents_view(m.docs@) == merged
                &&& m.docs_before == capped(docs_in(segments@))
                &&& m.segments_merged == segments@.len()
                &&& m.bytes matches Some(b) ==> b@ == segment_file(dim as u32, merged)
                    && file_accepts(b@) && buildable(dim as nat, merged)
            }
        }),
{
    let docs_before = count_docs(segments);
    let docs = merge_segments(segments, deleted_ids, dim);
    let segments_merged = segments.len();
    if docs.len() == 0 {
        return Ok(Merge { docs, bytes: None, docs_before, segments_merged });
    }
    let bytes = match write_segment_temp(&docs, dim) {
        Ok(written) => written.0,
        Err(e) => { return Err(e); },
    };
    Ok(Merge { docs, bytes: Some(bytes), docs_before, segments_merged })
}

/// Compacts `segments`, oldest first in the list, given the tombstoned
/// ids: merges them (see [`merge_segments`]), writes the file of the one
/// segment that replaces them, and changes the manifest to match (see
/// [`apply_compaction`]). `index_rebuilt` says whether an index was built
/// over the merged documents. Returns what was done, the file of the new
/// segment if any document is left, and the segment files that are no
/// longer needed.
///
/// Fails, leaving the manifest as it was, when the new segment cannot be
/// written.
pub fn compact_with_deleted_ids(
    segments: &Vec<Segment>,
    deleted_ids: &TextSet,
    dim: usize,
    manifest: &mut Manifest,
    index_rebuilt: bool,
) -> (r: Result<(CompactionResult, Option<Vec<u8>>, Vec<String>), Error>)
    requires
        deleted_ids.wf(),
        forall|i: int| 0 <= i < segments@.len() ==> (#[trigger] segments@[i]).wf(),
        index_rebuilt ==> old(manifest).index_generation < u32::MAX,
    ensures
        ({
            let merged = kept(scan_order(segment_files(segments@)), deleted_ids@);
            &&& r is Ok <==> merged.len() == 0 || buildable(dim as nat, merged)
            &&& r is Err ==> *final(manifest) == *old(manifest)
            &&& merged.len() <= u32::MAX && !all_dimension(merged, dim as nat) ==> (r matches Err(
                Error::WrongDimension { expected, got },
            ) && expected == dim && exists|k: int| #[trigger]
                first_off(merged, dim as nat, k) && got == merged[k].vector.len())
            &&& merged.len() > u32::MAX && all_dimension(merged, dim as nat) ==> (r matches Err(
                Error::InvalidArgument { .. },
            ))
            &&& 0 < merged.len() <= u32::MAX && all_dimension(merged, dim as nat) && !buildable(
                dim as nat,
                merged,
            ) ==> (r matches Err(Error::Serialization(_)))
            &&& r matches Ok(done) ==> {
                &&& done.0.docs_before == capped(docs_in(segments@))
                &&& done.0.docs_after == merged.len()
                &&& done.0.segments_merged == segments@.len()
                &&& done.0.index_rebuilt == (index_rebuilt && merged.len() > 0)
                &&& manifest_compacted(
                    *old(manifest),
                    *final(manifest),
                    done.0.docs_after,
                    index_rebuilt,
                )
                &&& final(manifest).last_wal_seq == 0
                &&& final(manifest).config == old(manifest).config
                &&& match done.1 {
                    Some(bytes) => {
                        &&& merged.len() > 0
                        &&& buildable(dim as nat, merged)
                        &&& bytes@ == segment_file(dim as u32, merged)
                        &&& file_accepts(bytes@)
                        &&& done.0.new_segment@ == COMPACTED_SEGMENT_NAME@
                        &&& final(manifest).segments@.len() == 1
                        &&& compacted_entry(final(manifest).segments@[0], done.0.docs_after)
                        &&& names_view(done.2@) == names_without(
                            old(manifest).segment_names(),
                            COMPACTED_SEGMENT_NAME@,
                        )
                    },
                    None => {
                        &&& merged.len() == 0
                        &&& done.0.new_segment@ == Seq::<char>::empty()
                        &&& final(manifest).segments@.len() == 0
                        &&& final(manifest).index_file is None
                        &&& names_view(done.2@) == names_view(old(manifest).segment_names())
                    },
                }
            }
        }),
{
    let merge = match merge_all(segments, deleted_ids, dim) {
        Ok(m) => m,
        Err(e) => { return Err(e); },
    };
    let docs_after = merge.docs.len();
    match merge.bytes {
        None => {
            let stale = apply_compaction(manifest, 0, false);
            Ok(
                (
                    CompactionResult {
                        docs_before: merge.docs_before,
                        docs_after: 0,
                        segments_merged: merge.segments_merged,
                        new_segment: String::new(),
                        index_rebuilt: false,
                    },
                    None,
                    stale,
                ),
            )
        },
        Some(bytes) => {
            let stale = apply_compaction(manifest, docs_after, index_rebuilt);
            Ok(
                (
                    CompactionResult {
                        docs_before: merge.docs_before,
                        docs_after,
                        segments_merged: merge.segments_merged,
                        new_segment: COMPACTED_SEGMENT_NAME.to_owned(),
                        index_rebuilt,
                    },
                    Some(bytes),
                    stale,
                ),
            )
        },
    }
}

/// Compacts `segments` with the tombstones of `memtable` (see
/// [`compact_with_deleted_ids`]).
pub fn compact(
    segments: &Vec<Segment>,
    memtable: &Memtable,
    dim: usize,
    manifest: &mut Manifest,
    should_rebuild_index: bool,
) -> (r: Result<(CompactionResult, Option<Vec<u8>>, Vec<String>), Error>)
    requires
        memtable.wf(),
        forall|i: int| 0 <= i < segments@.len() ==> (#[trigger] segments@[i]).wf(),
        should_rebuild_index ==> old(manifest).index_generation < u32::MAX,
    ensures
        ({
            let merged = kept(scan_order(segment_files(segments@)), memtable.tombstones());
            &&& r is Ok <==> merged.len() == 0 || buildable(dim as nat, merged)
            &&& r is Err ==> *final(manifest) == *old(manifest)
            &&& merged.len() <= u32::MAX && !all_dimension(merged, dim as nat) ==> (r matches Err(
                Error::WrongDimension { expected, got },
            ) && expected == dim && exists|k: int| #[trigger]
                first_off(merged, dim as nat, k) && got == merged[k].vector.len())
            &&& merged.len() > u32::MAX && all_dimension(merged, dim as nat) ==> (r matches Err(
                Error::InvalidArgument { .. },
            ))
            &&& 0 < merged.len() <= u32::MAX && all_dimension(merged, dim as nat) && !buildable(
                dim as nat,
                merged,
            ) ==> (r matches Err(Error::Serialization(_)))
            &&& r matches Ok(done) ==> {
                &&& done.0.docs_before == capped(docs_in(segments@))
                &&& done.0.docs_after == merged.len()
                &&& done.0.segments_merged == segments@.len()
                &&& done.1 is Some == (merged.len() > 0)
                &&& done.1 matches Some(bytes) ==> bytes@ == segment_file(dim as u32, merged)
                    && buildable(dim as nat, merged) && file_accepts(bytes@)
                &&& done.0.index_rebuilt == (should_rebuild_index && merged.len() > 0)
                &&& manifest_compacted(
                    *old(manifest),
                    *final(manifest),
                    done.0.docs_after,
                    should_rebuild_index,
                )
                &&& done.0.new_segment@ == (if merged.len() > 0 {
                    COMPACTED_SEGMENT_NAME@
                } else {
                    Seq::<char>::empty()
                })
                &&& names_view(done.2@) == (if merged.len() > 0 {
                    names_without(old(manifest).segment_names(), COMPACTED_SEGMENT_NAME@)
                } else {
                    names_view(old(manifest).segment_names())
                })
            }
        }),
{
    let deleted_ids = collect_deleted_ids(memtable);
    compact_with_deleted_ids(segments, &deleted_ids, dim, manifest, should_rebuild_index)
}


/// The level drawn for document `i`: 0 where `levels` gives none.
pub open spec fn level_at(levels: Seq<usize>, i: int) -> usize {
    if 0 <= i < levels.len() {
        levels[i]
    } else {
        0
    }
}

/// Whether stage `i + 1` is stage `i` with the vector of document `i`
/// added at its level.
pub open spec fn stage_added<F: Fn(&Vec<u32>, &Vec<u32>) -> u32>(
    docs: Seq<Document>,
    levels: Seq<usize>,
    f: &F,
    stages: Seq<HnswBuilder>,
    i: int,
) -> bool {
    stages[i].added(&stages[i + 1], docs[i].vector@, level_at(levels, i), f)
}

/// Whether `index` is the graph built over the vectors of `docs`, with
/// `stages` the builder before the first document and after each one:
/// the first stage is empty, with the default parameters; each document
/// is added to the stage before it; and the index is the graph of the
/// last stage.
pub open spec fn index_built<F: Fn(&Vec<u32>, &Vec<u32>) -> u32>(
    docs: Seq<Document>,
    dim: usize,
    distance: Distance,
    levels: Seq<usize>,
    f: &F,
    stages: Seq<HnswBuilder>,
    index: &HnswIndex,
) -> bool {
    &&& stages.len() == docs.len() + 1
    &&& stages[0].count() == 0
    &&& stages[0].layer_count() == 0
    &&& stages[0].entry() is None
    &&& stages[0].settings() == (HnswParams { m: 16, ef_construction: 64, ef_search: 32 })
    &&& stages[0].dim() == dim
    &&& stages[0].metric() == distance
    &&& forall|i: int| 0 <= i < docs.len() ==> #[trigger] stage_added(docs, levels, f, stages, i)
    &&& stages.last().built(index)
}

/// Builds an index over the vectors of `docs`, in order, with the default
/// parameters. `levels` gives the level drawn for each document (0 where
/// it gives none) and `between` the distance between two vectors.
///
/// Fails with `InvalidArgument` when there are no documents or more than
/// `u32::MAX`, and with `WrongDimension` when a vector does not have
/// `dim` components.
pub fn build_hnsw_index<F: Fn(&Vec<u32>, &Vec<u32>) -> u32>(
    docs: &Vec<Document>,
    dim: usize,
    distance: Distance,
    levels: &Vec<usize>,
    between: &F,
) -> (r: Result<HnswIndex, Error>)
    requires
        forall|a: &Vec<u32>, b: &Vec<u32>| between.requires((a, b)),
    ensures
        docs@.len() == 0 ==> r matches Err(Error::InvalidArgument { .. }),
        r is Ok <==> 0 < docs@.len() <= u32::MAX && (forall|i: int|
            0 <= i < docs@.len() ==> (#[trigger] docs@[i]).vector@.len() == dim),
        forall|k: int| #[trigger]
            first_off(documents_view(docs@), dim as nat, k) && k <= u32::MAX ==> (r matches Err(
                Error::WrongDimension { expected, got },
            ) && expected == dim && got == docs@[k].vector@.len()),
        docs@.len() > u32::MAX && (forall|i: int|
            0 <= i <= u32::MAX ==> (#[trigger] docs@[i]).vector@.len() == dim) ==> r matches Err(
            Error::InvalidArgument { .. },
        ),
        r matches Ok(index) ==> {
            &&& index.wf()
            &&& index.nodes() == docs@.len()
            &&& index.dim() == dim
            &&& index.metric() == distance
            &&& index.settings().m == 16
            &&& index.settings().ef_construction == 64
            &&& index.settings().ef_search == 32
        },
        r matches Ok(index) ==> exists|stages: Seq<HnswBuilder>| #[trigger]
            index_built(docs@, dim, distance, levels@, between, stages, &index),
{
    if docs.len() == 0 {
        return Err(Error::invalid_arg("docs", "cannot build index from empty documents"));
    }
    let params = HnswParams { m: 16, ef_construction: 64, ef_search: 32 };
    let mut builder = HnswBuilder::new(dim, distance, params);
    let ghost stages: Seq<HnswBuilder> = seq![builder];
    let mut i: usize = 0;
    while i < docs.len()
        invariant
            i <= docs@.len(),
            docs@.len() > 0,
            forall|a: &Vec<u32>, b: &Vec<u32>| between.requires((a, b)),
            builder.wf(),
            builder.count() == i,
            builder.dim() == dim,
            builder.metric() == distance,
            builder.settings() == params,
            stages.len() == i + 1,
            stages.last() == builder,
            stages[0].count() == 0,
            stages[0].layer_count() == 0,
            stages[0].entry() is None,
            stages[0].settings() == params,
            stages[0].dim() == dim,
            stages[0].metric() == distance,
            forall|j: int| 0 <= j < i ==> #[trigger] stage_added(docs@, levels@, between, stages, j),
            forall|j: int| 0 <= j < i ==> (#[trigger] docs@[j]).vector@.len() == dim,
            i <= u32::MAX,
        decreases docs@.len() - i,
    {
        let level = if i < levels.len() {
            levels[i]
        } else {
            0
        };
        let ghost earlier = stages;
        match builder.add(docs[i].vector.clone(), level, between) {
            Ok(_) => {},
            Err(e) => {
                proof {
                    let all = documents_view(docs@);
                    assert forall|k: int| #[trigger]
                        first_off(all, dim as nat, k) && k <= u32::MAX implies k == i
                        && all[k].vector.len() != dim by {
                        if first_off(all, dim as nat, k) && k <= u32::MAX {
                            if k < i {
                                assert(docs@[k].vector@.len() == dim);
                                assert(all[k].vector == docs@[k].vector@);
                            }
                            if k > i {
                                assert(all[i as int].vector.len() == dim);
                                assert(all[i as int].vector == docs@[i as int].vector@);
                            }
                        }
                    }
                    assert(all[i as int].vector == docs@[i as int].vector@);
                }
                return Err(e);
            },
        }
        proof {
            stages = earlier.push(builder);
            assert forall|j: int| 0 <= j <= i implies #[trigger] stage_added(
                docs@,
                levels@,
                between,
                stages,
                j,
            ) by {
                if j < i {
                    assert(stage_added(docs@, levels@, between, earlier, j));
                    assert(stages[j] == earlier[j]);
                    assert(stages[j + 1] == earlier[j + 1]);
                } else {
                    assert(stages[j] == earlier.last());
                    assert(stages[j + 1] == builder);
                }
            }
        }
        i += 1;
    }
    let r = builder.build();
    proof {
        if r is Ok {
            assert(index_built(docs@, dim, distance, levels@, between, stages, &r->Ok_0));
        }
    }
    r
}

} // verus!
