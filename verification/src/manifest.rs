//! The manifest: what a collection consists of at rest.
//!
//! The manifest names the segments of a collection in creation order, the
//! last log sequence number applied to them, and the index file if there
//! is one. It is what a saved collection is opened from.

use vstd::prelude::*;
use crate::codec::{text_eq, text_of};
use crate::error::Error;
use crate::CollectionConfig;

verus! {

/// Name of the manifest file inside a collection directory.
pub const MANIFEST_FILE_NAME: &'static str = "MANIFEST";

/// Name of the temporary file a manifest is written to before it is
/// renamed into place.
pub const MANIFEST_TEMP_NAME: &'static str = "MANIFEST.tmp";

/// One segment of a collection, as the manifest names it.
#[derive(Debug)]
pub struct SegmentEntry {
    /// File name of the segment, without directory.
    pub filename: String,
    /// Number of documents in the segment.
    pub doc_count: u64,
    /// Range of internal numbers in the segment: first, and one past the
    /// last.
    pub id_range: (u32, u32),
}

/// The state of a collection at rest.
#[derive(Debug)]
pub struct Manifest {
    /// Configuration of the collection.
    pub config: CollectionConfig,
    /// The segments, in creation order.
    pub segments: Vec<SegmentEntry>,
    /// Last log sequence number applied to the segments.
    pub last_wal_seq: u64,
    /// Format version.
    pub version: u32,
    /// File name of the index, if the collection has one.
    pub index_file: Option<String>,
    /// How often the index was rebuilt.
    pub index_generation: u32,
}

/// Whether `name` is one of `names`.
pub open spec fn named_in(names: Seq<String>, name: Seq<char>) -> bool {
    exists|i: int| 0 <= i < names.len() && (#[trigger] names[i])@ == name
}

/// The entries whose file name is not among `names`, in order.
pub open spec fn entries_kept(segments: Seq<SegmentEntry>, names: Seq<String>) -> Seq<
    SegmentEntry,
>
    decreases segments.len(),
{
    if segments.len() == 0 {
        Seq::empty()
    } else {
        let front = entries_kept(segments.drop_last(), names);
        if named_in(names, segments.last().filename@) {
            front
        } else {
            front.push(segments.last())
        }
    }
}

/// The sum of the document counts of `segments`.
pub open spec fn total_docs(segments: Seq<SegmentEntry>) -> int
    decreases segments.len(),
{
    if segments.len() == 0 {
        0
    } else {
        total_docs(segments.drop_last()) + segments.last().doc_count
    }
}

/// Two entries that say the same.
pub open spec fn same_entry(a: SegmentEntry, b: SegmentEntry) -> bool {
    a.filename@ == b.filename@ && a.doc_count == b.doc_count && a.id_range == b.id_range
}

/// Two lists of entries that say the same, entry by entry.
pub open spec fn same_entries(a: Seq<SegmentEntry>, b: Seq<SegmentEntry>) -> bool {
    a.len() == b.len() && forall|i: int| 0 <= i < a.len() ==> same_entry(#[trigger] a[i], b[i])
}

/// Whether `name` is one of `names`.
pub fn contains_name(names: &Vec<String>, name: &str) -> (r: bool)
    ensures
        r == named_in(names@, name@),
{
    let mut i: usize = 0;
    while i < names.len()
        invariant
            i <= names@.len(),
            forall|j: int| 0 <= j < i ==> (#[trigger] names@[j])@ != name@,
        decreases names@.len() - i,
    {
        if text_eq(names[i].as_str(), name) {
            return true;
        }
        i += 1;
    }
    false
}

impl SegmentEntry {
    /// A copy of this entry.
    pub fn duplicate(&self) -> (r: SegmentEntry)
        ensures
            same_entry(r, *self),
    {
        SegmentEntry {
            filename: self.filename.clone(),
            doc_count: self.doc_count,
            id_range: self.id_range,
        }
    }
}

impl Manifest {
    /// The format version that this library writes and reads.
    pub const CURRENT_VERSION: u32 = 1;

    /// The file names of the segments, in order.
    pub open spec fn segment_names(&self) -> Seq<String> {
        Seq::new(self.segments@.len(), |i: int| self.segments@[i].filename)
    }

    /// The manifest of a new, empty collection.
    pub fn new(config: CollectionConfig) -> (m: Manifest)
        ensures
            m.config == config,
            m.segments@.len() == 0,
            m.last_wal_seq == 0,
            m.version == 1,
            m.index_file is None,
            m.index_generation == 0,
    {
        Manifest {
            config,
            segments: Vec::new(),
            last_wal_seq: 0,
            version: 1,
            index_file: None,
            index_generation: 0,
        }
    }

    /// A copy of this manifest.
    pub fn duplicate(&self) -> (r: Manifest)
        ensures
            r.config == self.config,
            same_entries(r.segments@, self.segments@),
            r.last_wal_seq == self.last_wal_seq,
            r.version == self.version,
            text_of(r.index_file) == text_of(self.index_file),
            r.index_generation == self.index_generation,
    {
        let mut segments: Vec<SegmentEntry> = Vec::new();
        let mut i: usize = 0;
        while i < self.segments.len()
            invariant
                i <= self.segments@.len(),
                segments@.len() == i,
                forall|j: int| 0 <= j < i ==> same_entry(#[trigger] segments@[j], self.segments@[j]),
            decreases self.segments@.len() - i,
        {
            segments.push(self.segments[i].duplicate());
            i += 1;
        }
        Manifest {
            config: self.config,
            segments,
            last_wal_seq: self.last_wal_seq,
            version: self.version,
            index_file: crate::codec::clone_text(&self.index_file),
            index_generation: self.index_generation,
        }
    }

    /// Accepts a manifest that was read from `path`: one of another format
    /// version is reported as corruption.
    pub fn check_version(self, path: &str) -> (r: Result<Manifest, Error>)
        ensures
            self.version == 1 ==> r == Ok::<Manifest, Error>(self),
            self.version != 1 ==> (r matches Err(Error::Corruption { file, offset, message })
                && file@ == path@ && offset == 0 && message@ == "unsupported manifest version"@),
    {
        if self.version != 1 {
            return Err(Error::corruption(path, 0, "unsupported manifest version"));
        }
        Ok(self)
    }

    /// Adds a segment behind those already named.
    pub fn add_segment(&mut self, entry: SegmentEntry)
        ensures
            final(self).segments@ == old(self).segments@.push(entry),
            final(self).config == old(self).config,
            final(self).last_wal_seq == old(self).last_wal_seq,
            final(self).version == old(self).version,
            final(self).index_file == old(self).index_file,
            final(self).index_generation == old(self).index_generation,
    {
        self.segments.push(entry);
    }

    /// Removes the segments whose file name is among `filenames`; the
    /// others stay, in order.
    pub fn remove_segments(&mut self, filenames: &Vec<String>)
        ensures
            same_entries(final(self).segments@, entries_kept(old(self).segments@, filenames@)),
            final(self).config == old(self).config,
            final(self).last_wal_seq == old(self).last_wal_seq,
            final(self).version == old(self).version,
            final(self).index_file == old(self).index_file,
            final(self).index_generation == old(self).index_generation,
    {
        let mut kept: Vec<SegmentEntry> = Vec::new();
        let mut i: usize = 0;
        let ghost all = self.segments@;
        assert(all.take(0) =~= Seq::empty());
        while i < self.segments.len()
            invariant
                i <= self.segments@.len(),
                all == self.segments@,
                *self == *old(self),
                same_entries(kept@, entries_kept(all.take(i as int), filenames@)),
            decreases self.segments@.len() - i,
        {
            proof {
                let next = all.take(i as int + 1);
                assert(next.drop_last() =~= all.take(i as int));
                assert(next.last() == all[i as int]);
            }
            if !contains_name(filenames, self.segments[i].filename.as_str()) {
                kept.push(self.segments[i].duplicate());
            }
            i += 1;
        }
        assert(all.take(self.segments@.len() as int) =~= all);
        self.segments = kept;
    }

    /// The file names of the segments, in order.
    pub fn segment_filenames(&self) -> (r: Vec<String>)
        ensures
            r@.len() == self.segments@.len(),
            forall|i: int| 0 <= i < r@.len() ==> (#[trigger] r@[i])@ == self.segments@[i].filename@,
    {
        let mut out: Vec<String> = Vec::new();
        let mut i: usize = 0;
        while i < self.segments.len()
            invariant
                i <= self.segments@.len(),
                out@.len() == i,
                forall|j: int|
                    0 <= j < i ==> (#[trigger] out@[j])@ == self.segments@[j].filename@,
            decreases self.segments@.len() - i,
        {
            out.push(self.segments[i].filename.clone());
            i += 1;
        }
        out
    }

    /// Sets the last applied log sequence number.
    pub fn set_last_wal_seq(&mut self, seq: u64)
        ensures
            final(self).last_wal_seq == seq,
            final(self).config == old(self).config,
            final(self).segments == old(self).segments,
            final(self).version == old(self).version,
            final(self).index_file == old(self).index_file,
            final(self).index_generation == old(self).index_generation,
    {
        self.last_wal_seq = seq;
    }

    /// The number of documents in all segments together, capped at
    /// `u64::MAX`.
    pub fn total_doc_count(&self) -> (r: u64)
        ensures
            r == (if total_docs(self.segments@) > u64::MAX {
                u64::MAX as int
            } else {
                total_docs(self.segments@)
            }),
    {
        let mut sum: u64 = 0;
        let mut i: usize = 0;
        let ghost all = self.segments@;
        assert(all.take(0) =~= Seq::empty());
        while i < self.segments.len()
            invariant
                i <= self.segments@.len(),
                all == self.segments@,
                total_docs(all.take(i as int)) >= 0,
                sum == (if total_docs(all.take(i as int)) > u64::MAX {
                    u64::MAX as int
                } else {
                    total_docs(all.take(i as int))
                }),
            decreases self.segments@.len() - i,
        {
            proof {
                let next = all.take(i as int + 1);
                assert(next.drop_last() =~= all.take(i as int));
                assert(next.last() == all[i as int]);
            }
            let count = self.segments[i].doc_count;
            sum = if count > u64::MAX - sum {
                u64::MAX
            } else {
                sum + count
            };
            i += 1;
        }
        assert(all.take(self.segments@.len() as int) =~= all);
        sum
    }

    /// Sets or clears the index file name.
    pub fn set_index_file(&mut self, path: Option<String>)
        ensures
            final(self).index_file == path,
            final(self).config == old(self).config,
            final(self).segments == old(self).segments,
            final(self).last_wal_seq == old(self).last_wal_seq,
            final(self).version == old(self).version,
            final(self).index_generation == old(self).index_generation,
    {
        self.index_file = path;
    }

    /// The index file name, if the collection has an index.
    pub fn index_file(&self) -> (r: Option<&str>)
        ensures
            r is Some == self.index_file is Some,
            r matches Some(s) ==> Some(s@) == text_of(self.index_file),
    {
        match &self.index_file {
            Some(s) => Some(s.as_str()),
            None => None,
        }
    }

    /// Counts one more rebuild of the index.
    pub fn increment_index_generation(&mut self)
        requires
            old(self).index_generation < u32::MAX,
        ensures
            final(self).index_generation == old(self).index_generation + 1,
            final(self).config == old(self).config,
            final(self).segments == old(self).segments,
            final(self).last_wal_seq == old(self).last_wal_seq,
            final(self).version == old(self).version,
            final(self).index_file == old(self).index_file,
    {
        self.index_generation = self.index_generation + 1;
    }

    /// How often the index was rebuilt.
    pub fn index_generation(&self) -> (r: u32)
        ensures
            r == self.index_generation,
    {
        self.index_generation
    }
}

/// A manifest together with the path it is kept at.
#[derive(Debug)]
pub struct ManifestManager {
    path: String,
    manifest: Manifest,
}

impl ManifestManager {
    /// The manifest.
    pub closed spec fn state(&self) -> Manifest {
        self.manifest
    }

    /// The path of the manifest file.
    pub closed spec fn location(&self) -> Seq<char> {
        self.path@
    }

    /// Takes the manifest that was loaded from `path`, or starts a new one
    /// from `default_config` when none was found. With neither, fails with
    /// `NotFound`.
    pub fn open(path: &str, loaded: Option<Manifest>, default_config: Option<CollectionConfig>) -> (r:
        Result<ManifestManager, Error>)
        ensures
            match (loaded, default_config) {
                (Some(m), _) => r matches Ok(mm) && mm.state() == m && mm.location() == path@,
                (None, Some(c)) => r matches Ok(mm) && mm.location() == path@ && mm.state().config
                    == c && mm.state().segments@.len() == 0 && mm.state().last_wal_seq == 0
                    && mm.state().version == 1 && mm.state().index_file is None
                    && mm.state().index_generation == 0,
                (None, None) => r matches Err(Error::NotFound { id }) && id@ == path@,
            },
    {
        let manifest = match loaded {
            Some(m) => m,
            None => match default_config {
                Some(c) => Manifest::new(c),
                None => { return Err(Error::NotFound { id: path.to_owned() }); },
            },
        };
        Ok(ManifestManager { path: path.to_owned(), manifest })
    }

    /// The manifest.
    pub fn manifest(&self) -> (r: &Manifest)
        ensures
            *r == self.state(),
    {
        &self.manifest
    }

    /// The manifest, to change it.
    pub fn manifest_mut(&mut self) -> (r: &mut Manifest)
        ensures
            *r == old(self).state(),
            final(self).state() == *final(r),
            final(self).location() == old(self).location(),
    {
        &mut self.manifest
    }

    /// The path of the manifest file.
    pub fn path(&self) -> (r: &str)
        ensures
            r@ == self.location(),
    {
        self.path.as_str()
    }

    /// The last applied log sequence number.
    pub fn last_wal_seq(&self) -> (r: u64)
        ensures
            r == self.state().last_wal_seq,
    {
        self.manifest.last_wal_seq
    }
}

} // verus!
