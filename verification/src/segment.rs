//! Immutable segments: a 64-byte header, packed vectors, ids and payloads.
//!
//! A segment file is `header ‖ vectors ‖ id entries ‖ payload entries`, all
//! integers little-endian. The header carries a checksum of everything
//! behind it. This module writes such a file from documents, checks and
//! reads one, and says what each read returns in terms of the file's bytes.

use std::collections::HashMap;
use vstd::prelude::*;
use vstd::bytes::*;
use vstd::utf8::*;
use crate::codec::{
    clone_text, get_text_field, lemma_payload_field_round_trip, lemma_text_field_round_trip,
    lemma_words_le_len, lemma_words_round_trip, parse_payload_field, parse_text_field,
    payload_field, put_bytes, put_text_field, put_u16, put_u32, put_u64, put_u8, put_words,
    read_u32, read_u8, read_words, spec_read_u32, spec_read_u8, spec_read_words, text_eq,
    text_field, text_fits, text_of, words_le,
};
use crate::assoc::{assoc_distinct, assoc_get, assoc_map, lemma_assoc_absent, lemma_assoc_found};
use crate::error::Error;
use crate::id::{turned, IdMapping};

verus! {

broadcast use vstd::std_specs::hash::group_hash_axioms;


/// Format version written into every header.
pub const SEGMENT_VERSION: u16 = 1;

/// Size of the header in bytes.
pub const HEADER_SIZE: usize = 64;

/// Alignment of the vector region in bytes.
pub const ALIGNMENT: usize = 64;

/// The four bytes every segment file starts with: `nDB` and a zero byte.
pub const SEGMENT_MAGIC: [u8; 4] = [110, 68, 66, 0];

/// The magic bytes as a sequence.
pub open spec fn magic() -> Seq<u8> {
    seq![110u8, 68u8, 66u8, 0u8]
}

/// A document: external id, vector and optional payload.
#[derive(Debug, Clone)]
pub struct Document {
    /// External id.
    pub id: String,
    /// The vector, one IEEE-754 single-precision bit pattern per component.
    pub vector: Vec<u32>,
    /// JSON text of the payload, if any.
    pub payload: Option<String>,
}

/// A document as mathematical values.
pub struct DocumentView {
    /// External id.
    pub id: Seq<char>,
    /// Components of the vector.
    pub vector: Seq<u32>,
    /// JSON text of the payload, if any.
    pub payload: Option<Seq<char>>,
}

impl View for Document {
    type V = DocumentView;

    open spec fn view(&self) -> DocumentView {
        DocumentView { id: self.id@, vector: self.vector@, payload: text_of(self.payload) }
    }
}

/// The documents of a list as mathematical values.
pub open spec fn documents_view(docs: Seq<Document>) -> Seq<DocumentView> {
    Seq::new(docs.len(), |i: int| docs[i]@)
}

impl Document {
    /// A copy of this document.
    pub fn duplicate(&self) -> (r: Document)
        ensures
            r@ == self@,
    {
        Document {
            id: self.id.clone(),
            vector: self.vector.clone(),
            payload: clone_text(&self.payload),
        }
    }
}

/// The header of a segment file.
#[derive(Debug, Clone, Copy, PartialEq, Eq)]
pub struct SegmentHeader {
    /// Magic bytes.
    pub magic: [u8; 4],
    /// Format version.
    pub version: u16,
    /// Number of components per vector.
    pub dimension: u32,
    /// Number of documents.
    pub doc_count: u64,
    /// Offset of the vector region.
    pub vector_offset: u64,
    /// Offset of the id region.
    pub id_mapping_offset: u64,
    /// Offset of the payload region.
    pub payload_offset: u64,
    /// Checksum of every byte behind the header.
    pub checksum: u64,
}

/// The 64 bytes of a header with the given fields: the fields in order,
/// a zero reserved field behind the version, and twelve zero bytes at the end.
pub open spec fn header_layout(
    magic: Seq<u8>,
    version: u16,
    dimension: u32,
    doc_count: u64,
    vector_offset: u64,
    id_mapping_offset: u64,
    payload_offset: u64,
    checksum: u64,
) -> Seq<u8> {
    magic + spec_u16_to_le_bytes(version) + spec_u16_to_le_bytes(0) + spec_u32_to_le_bytes(
        dimension,
    ) + spec_u64_to_le_bytes(doc_count) + spec_u64_to_le_bytes(vector_offset)
        + spec_u64_to_le_bytes(id_mapping_offset) + spec_u64_to_le_bytes(payload_offset)
        + spec_u64_to_le_bytes(checksum) + Seq::new(12, |i: int| 0u8)
}

/// The 64 bytes of a header.
pub open spec fn segment_header_bytes(h: SegmentHeader) -> Seq<u8> {
    header_layout(
        h.magic@,
        h.version,
        h.dimension,
        h.doc_count,
        h.vector_offset,
        h.id_mapping_offset,
        h.payload_offset,
        h.checksum,
    )
}

/// The dimension field of a file.
pub open spec fn file_dimension(b: Seq<u8>) -> u32 {
    spec_u32_from_le_bytes(b.subrange(8, 12))
}

/// The document count field of a file.
pub open spec fn file_doc_count(b: Seq<u8>) -> u64 {
    spec_u64_from_le_bytes(b.subrange(12, 20))
}

/// The vector offset field of a file.
pub open spec fn file_vector_offset(b: Seq<u8>) -> u64 {
    spec_u64_from_le_bytes(b.subrange(20, 28))
}

/// The id region offset field of a file.
pub open spec fn file_id_offset(b: Seq<u8>) -> u64 {
    spec_u64_from_le_bytes(b.subrange(28, 36))
}

/// The payload region offset field of a file.
pub open spec fn file_payload_offset(b: Seq<u8>) -> u64 {
    spec_u64_from_le_bytes(b.subrange(36, 44))
}

/// The checksum field of a file.
pub open spec fn file_checksum(b: Seq<u8>) -> u64 {
    spec_u64_from_le_bytes(b.subrange(44, 52))
}

/// Whether `h` holds the fields found at the front of `b`.
pub open spec fn header_matches(h: SegmentHeader, b: Seq<u8>) -> bool {
    &&& b.len() >= 64
    &&& h.magic@ == b.subrange(0, 4)
    &&& h.version == spec_u16_from_le_bytes(b.subrange(4, 6))
    &&& h.dimension == file_dimension(b)
    &&& h.doc_count == file_doc_count(b)
    &&& h.vector_offset == file_vector_offset(b)
    &&& h.id_mapping_offset == file_id_offset(b)
    &&& h.payload_offset == file_payload_offset(b)
    &&& h.checksum == file_checksum(b)
}

/// Whether `b` starts with the magic bytes.
pub open spec fn magic_ok(b: Seq<u8>) -> bool {
    b.len() >= 64 && b.subrange(0, 4) == magic()
}

/// Whether the version field of `b` holds the supported version.
pub open spec fn version_ok(b: Seq<u8>) -> bool {
    b.len() >= 64 && spec_u16_from_le_bytes(b.subrange(4, 6)) == 1
}

/// A header laid out is 64 bytes long, and each field is read back from it.
pub proof fn lemma_header_layout(
    m: Seq<u8>,
    version: u16,
    dimension: u32,
    doc_count: u64,
    vector_offset: u64,
    id_mapping_offset: u64,
    payload_offset: u64,
    checksum: u64,
    rest: Seq<u8>,
)
    requires
        m.len() == 4,
    ensures
        ({
            let head = header_layout(
                m,
                version,
                dimension,
                doc_count,
                vector_offset,
                id_mapping_offset,
                payload_offset,
                checksum,
            );
            let b = head + rest;
            &&& head.len() == 64
            &&& b.subrange(0, 4) == m
            &&& spec_u16_from_le_bytes(b.subrange(4, 6)) == version
            &&& file_dimension(b) == dimension
            &&& file_doc_count(b) == doc_count
            &&& file_vector_offset(b) == vector_offset
            &&& file_id_offset(b) == id_mapping_offset
            &&& file_payload_offset(b) == payload_offset
            &&& file_checksum(b) == checksum
            &&& b.skip(64) == rest
        }),
{
    lemma_auto_spec_u16_to_from_le_bytes();
    lemma_auto_spec_u32_to_from_le_bytes();
    lemma_auto_spec_u64_to_from_le_bytes();
    let head = header_layout(
        m,
        version,
        dimension,
        doc_count,
        vector_offset,
        id_mapping_offset,
        payload_offset,
        checksum,
    );
    let b = head + rest;
    assert(b.subrange(0, 4) =~= m);
    assert(b.subrange(4, 6) =~= spec_u16_to_le_bytes(version));
    assert(b.subrange(8, 12) =~= spec_u32_to_le_bytes(dimension));
    assert(b.subrange(12, 20) =~= spec_u64_to_le_bytes(doc_count));
    assert(b.subrange(20, 28) =~= spec_u64_to_le_bytes(vector_offset));
    assert(b.subrange(28, 36) =~= spec_u64_to_le_bytes(id_mapping_offset));
    assert(b.subrange(36, 44) =~= spec_u64_to_le_bytes(payload_offset));
    assert(b.subrange(44, 52) =~= spec_u64_to_le_bytes(checksum));
    assert(b.skip(64) =~= rest);
}

/// A header written out is 64 bytes long and holds its fields.
pub proof fn lemma_header_bytes(h: SegmentHeader, rest: Seq<u8>)
    ensures
        segment_header_bytes(h).len() == 64,
        header_matches(h, segment_header_bytes(h) + rest),
        (segment_header_bytes(h) + rest).skip(64) == rest,
{
    assert(h.magic@.len() == 4);
    lemma_header_layout(
        h.magic@,
        h.version,
        h.dimension,
        h.doc_count,
        h.vector_offset,
        h.id_mapping_offset,
        h.payload_offset,
        h.checksum,
        rest,
    );
}

/// The BLAKE3 digest of a byte string: 32 bytes.
pub uninterp spec fn blake3_of(data: Seq<u8>) -> Seq<u8>;

/// `blake3::hash`: the 32-byte BLAKE3 digest of `data`.
#[verifier::external_body]
pub(crate) fn blake3_digest(data: &[u8]) -> (r: Vec<u8>)
    ensures
        r@ == blake3_of(data@),
        r@.len() == 32,
{
    blake3::hash(data).as_bytes().to_vec()
}

/// The checksum of a segment body: the first eight bytes of its BLAKE3
/// digest, read as a little-endian integer.
pub open spec fn checksum_of(body: Seq<u8>) -> u64 {
    spec_u64_from_le_bytes(blake3_of(body).subrange(0, 8))
}

impl SegmentHeader {
    /// A header with the current magic and version and a zero checksum.
    pub fn new(
        dimension: u32,
        doc_count: u64,
        vector_offset: u64,
        id_mapping_offset: u64,
        payload_offset: u64,
    ) -> (h: SegmentHeader)
        ensures
            h.magic@ == magic(),
            h.version == 1,
            h.dimension == dimension,
            h.doc_count == doc_count,
            h.vector_offset == vector_offset,
            h.id_mapping_offset == id_mapping_offset,
            h.payload_offset == payload_offset,
            h.checksum == 0,
    {
        let h = SegmentHeader {
            magic: SEGMENT_MAGIC,
            version: SEGMENT_VERSION,
            dimension,
            doc_count,
            vector_offset,
            id_mapping_offset,
            payload_offset,
            checksum: 0,
        };
        assert(h.magic@ =~= magic());
        h
    }

    /// The 64 bytes of this header.
    pub fn to_bytes(&self) -> (out: Vec<u8>)
        ensures
            out@ == segment_header_bytes(*self),
            out@.len() == 64,
    {
        let mut out: Vec<u8> = Vec::new();
        put_u8(&mut out, self.magic[0]);
        put_u8(&mut out, self.magic[1]);
        put_u8(&mut out, self.magic[2]);
        put_u8(&mut out, self.magic[3]);
        assert(out@ =~= self.magic@);
        put_u16(&mut out, self.version);
        put_u16(&mut out, 0);
        put_u32(&mut out, self.dimension);
        put_u64(&mut out, self.doc_count);
        put_u64(&mut out, self.vector_offset);
        put_u64(&mut out, self.id_mapping_offset);
        put_u64(&mut out, self.payload_offset);
        put_u64(&mut out, self.checksum);
        let ghost fields = out@;
        let mut i: usize = 0;
        while i < 12
            invariant
                i <= 12,
                out@ == fields + Seq::new(i as nat, |j: int| 0u8),
            decreases 12 - i,
        {
            out.push(0);
            i += 1;
            assert(out@ =~= fields + Seq::new(i as nat, |j: int| 0u8));
        }
        proof {
            lemma_header_bytes(*self, Seq::empty());
        }
        out
    }

    /// Reads a header from the front of `bytes`.
    ///
    /// Fails with `Corruption` at offset 0 when fewer than 64 bytes are
    /// given or the magic bytes are wrong, and at offset 4 when the version
    /// is not the supported one.
    pub fn from_bytes(bytes: &[u8]) -> (r: Result<SegmentHeader, Error>)
        ensures
            !magic_ok(bytes@) ==> (r matches Err(Error::Corruption { file, offset, message })
                && file@ == "<unknown>"@ && offset == 0 && message@ == (if bytes@.len() < 64 {
                "failed to read magic"@
            } else {
                "invalid magic"@
            })),
            magic_ok(bytes@) && !version_ok(bytes@) ==> (r matches Err(
                Error::Corruption { file, offset, message },
            ) && file@ == "<unknown>"@ && offset == 4 && message@ == "unsupported version"@),
            magic_ok(bytes@) && version_ok(bytes@) ==> (r matches Ok(h) && header_matches(
                h,
                bytes@,
            )),
    {
        if bytes.len() < 64 {
            return Err(Error::corruption("<unknown>", 0, "failed to read magic"));
        }
        let m: [u8; 4] = [bytes[0], bytes[1], bytes[2], bytes[3]];
        assert(m@ =~= bytes@.subrange(0, 4));
        if m[0] != SEGMENT_MAGIC[0] || m[1] != SEGMENT_MAGIC[1] || m[2] != SEGMENT_MAGIC[2]
            || m[3] != SEGMENT_MAGIC[3] {
            assert(m@ != magic());
            return Err(Error::corruption("<unknown>", 0, "invalid magic"));
        }
        assert(m@ =~= magic());
        let version = u16_from_le_bytes(vstd::slice::slice_subrange(bytes, 4, 6));
        if version != SEGMENT_VERSION {
            return Err(Error::corruption("<unknown>", 4, "unsupported version"));
        }
        let dimension = u32_from_le_bytes(vstd::slice::slice_subrange(bytes, 8, 12));
        let doc_count = u64_from_le_bytes(vstd::slice::slice_subrange(bytes, 12, 20));
        let vector_offset = u64_from_le_bytes(vstd::slice::slice_subrange(bytes, 20, 28));
        let id_mapping_offset = u64_from_le_bytes(vstd::slice::slice_subrange(bytes, 28, 36));
        let payload_offset = u64_from_le_bytes(vstd::slice::slice_subrange(bytes, 36, 44));
        let checksum = u64_from_le_bytes(vstd::slice::slice_subrange(bytes, 44, 52));
        Ok(
            SegmentHeader {
                magic: m,
                version,
                dimension,
                doc_count,
                vector_offset,
                id_mapping_offset,
                payload_offset,
                checksum,
            },
        )
    }

    /// The checksum of a segment body.
    pub fn compute_checksum(data: &[u8]) -> (r: u64)
        ensures
            r == checksum_of(data@),
    {
        let digest = blake3_digest(data);
        u64_from_le_bytes(vstd::slice::slice_subrange(digest.as_slice(), 0, 8))
    }
}

/// `value` rounded up to a multiple of `alignment`.
pub open spec fn aligned_up(value: int, alignment: int) -> int {
    if value % alignment == 0 {
        value
    } else {
        value + alignment - value % alignment
    }
}

/// Rounds `value` up to a multiple of `alignment`.
pub fn align_to(value: usize, alignment: usize) -> (r: usize)
    requires
        alignment > 0,
        value + alignment <= usize::MAX,
    ensures
        r == aligned_up(value as int, alignment as int),
        r % alignment == 0,
        value <= r < value + alignment,
{
    let rest = value % alignment;
    if rest == 0 {
        value
    } else {
        assert((value + (alignment - rest)) % (alignment as int) == 0) by (nonlinear_arith)
            requires
                rest == value % alignment,
                alignment > 0,
        ;
        value + (alignment - rest)
    }
}

/// One entry of the id region.
#[derive(Debug, Clone)]
pub struct IdEntry {
    /// Internal number.
    pub internal: u32,
    /// External id.
    pub external: String,
}

/// One entry of the payload region.
#[derive(Debug, Clone)]
pub struct PayloadEntry {
    /// Internal number of the document.
    pub internal_id: u32,
    /// JSON text of the payload, if the document has one.
    pub payload: Option<String>,
}

impl View for IdEntry {
    type V = (u32, Seq<char>);

    open spec fn view(&self) -> (u32, Seq<char>) {
        (self.internal, self.external@)
    }
}

impl View for PayloadEntry {
    type V = (u32, Option<Seq<char>>);

    open spec fn view(&self) -> (u32, Option<Seq<char>>) {
        (self.internal_id, text_of(self.payload))
    }
}

/// The id entries of a list as mathematical values.
pub open spec fn id_entries_view(v: Seq<IdEntry>) -> Seq<(u32, Seq<char>)> {
    Seq::new(v.len(), |i: int| v[i]@)
}

/// The payload entries of a list as mathematical values.
pub open spec fn payload_entries_view(v: Seq<PayloadEntry>) -> Seq<(u32, Option<Seq<char>>)> {
    Seq::new(v.len(), |i: int| v[i]@)
}

/// One id entry: internal number, then the id as a text field.
pub open spec fn id_entry_bytes(e: (u32, Seq<char>)) -> Seq<u8> {
    spec_u32_to_le_bytes(e.0) + text_field(e.1)
}

/// The id entries one after another.
pub open spec fn id_entries_bytes(es: Seq<(u32, Seq<char>)>) -> Seq<u8>
    decreases es.len(),
{
    if es.len() == 0 {
        Seq::empty()
    } else {
        id_entry_bytes(es[0]) + id_entries_bytes(es.drop_first())
    }
}

/// The id region: entry count, then the entries.
pub open spec fn id_region(es: Seq<(u32, Seq<char>)>) -> Seq<u8> {
    spec_u32_to_le_bytes(es.len() as u32) + id_entries_bytes(es)
}

/// One payload entry: internal number, then the optional payload text.
pub open spec fn payload_entry_bytes(e: (u32, Option<Seq<char>>)) -> Seq<u8> {
    spec_u32_to_le_bytes(e.0) + payload_field(e.1)
}

/// The payload entries one after another.
pub open spec fn payload_entries_bytes(es: Seq<(u32, Option<Seq<char>>)>) -> Seq<u8>
    decreases es.len(),
{
    if es.len() == 0 {
        Seq::empty()
    } else {
        payload_entry_bytes(es[0]) + payload_entries_bytes(es.drop_first())
    }
}

/// The payload region: entry count, then the entries.
pub open spec fn payload_region(es: Seq<(u32, Option<Seq<char>>)>) -> Seq<u8> {
    spec_u32_to_le_bytes(es.len() as u32) + payload_entries_bytes(es)
}

/// Whether every id of `es` fits its length prefix.
pub open spec fn ids_fit(es: Seq<(u32, Seq<char>)>) -> bool {
    forall|i: int| 0 <= i < es.len() ==> text_fits((#[trigger] es[i]).1)
}

/// Whether every payload of `es` fits its length prefix.
pub open spec fn payloads_fit(es: Seq<(u32, Option<Seq<char>>)>) -> bool {
    forall|i: int|
        0 <= i < es.len() ==> ((#[trigger] es[i]).1 matches Some(t) ==> text_fits(t))
}

/// `count` id entries starting at `pos`, and the offset behind them.
pub open spec fn parse_id_entries(b: Seq<u8>, pos: int, count: nat) -> Option<
    (Seq<(u32, Seq<char>)>, int),
>
    decreases count,
{
    if count == 0 {
        Some((Seq::empty(), pos))
    } else {
        match spec_read_u32(b, pos) {
            Some(internal) => match parse_text_field(b, pos + 4) {
                Some(tp) => match parse_id_entries(b, tp.1, (count - 1) as nat) {
                    Some(rest) => Some((seq![(internal, tp.0)] + rest.0, rest.1)),
                    None => None,
                },
                None => None,
            },
            None => None,
        }
    }
}

/// The offset behind an optional text at `pos`.
pub open spec fn payload_field_end(b: Seq<u8>, pos: int) -> int {
    match spec_read_u8(b, pos) {
        Some(flag) => if flag == 0 {
            pos + 1
        } else {
            match parse_text_field(b, pos + 1) {
                Some(tp) => tp.1,
                None => pos + 1,
            }
        },
        None => pos,
    }
}

/// `count` payload entries starting at `pos`.
pub open spec fn parse_payload_entries(b: Seq<u8>, pos: int, count: nat) -> Option<
    Seq<(u32, Option<Seq<char>>)>,
>
    decreases count,
{
    if count == 0 {
        Some(Seq::empty())
    } else {
        match spec_read_u32(b, pos) {
            Some(internal) => match parse_payload_field(b, pos + 4) {
                Some(p) => match parse_payload_entries(
                    b,
                    payload_field_end(b, pos + 4),
                    (count - 1) as nat,
                ) {
                    Some(rest) => Some(seq![(internal, p)] + rest),
                    None => None,
                },
                None => None,
            },
            None => None,
        }
    }
}

/// The id entries of the region at `pos`: a count, then that many entries.
pub open spec fn parse_id_region(b: Seq<u8>, pos: int) -> Option<Seq<(u32, Seq<char>)>> {
    match spec_read_u32(b, pos) {
        Some(count) => match parse_id_entries(b, pos + 4, count as nat) {
            Some(r) => Some(r.0),
            None => None,
        },
        None => None,
    }
}

/// The payload entries of the region at `pos`.
pub open spec fn parse_payload_region(b: Seq<u8>, pos: int) -> Option<
    Seq<(u32, Option<Seq<char>>)>,
> {
    match spec_read_u32(b, pos) {
        Some(count) => parse_payload_entries(b, pos + 4, count as nat),
        None => None,
    }
}

/// Appending an entry to the list appends its bytes.
pub proof fn lemma_id_entries_push(es: Seq<(u32, Seq<char>)>, e: (u32, Seq<char>))
    ensures
        id_entries_bytes(es.push(e)) == id_entries_bytes(es) + id_entry_bytes(e),
    decreases es.len(),
{
    if es.len() == 0 {
        reveal_with_fuel(id_entries_bytes, 2);
        assert(es.push(e).drop_first() =~= Seq::empty());
        assert(es.push(e)[0] == e);
        assert(id_entries_bytes(es.push(e)) =~= id_entries_bytes(es) + id_entry_bytes(e));
    } else {
        lemma_id_entries_push(es.drop_first(), e);
        assert(es.push(e).drop_first() =~= es.drop_first().push(e));
        assert(es.push(e)[0] == es[0]);
        assert(id_entries_bytes(es.push(e)) == id_entry_bytes(es[0]) + (id_entries_bytes(
            es.drop_first(),
        ) + id_entry_bytes(e)));
        assert(id_entries_bytes(es.push(e)) =~= id_entries_bytes(es) + id_entry_bytes(e));
    }
}

/// Appending an entry to the list appends its bytes.
pub proof fn lemma_payload_entries_push(
    es: Seq<(u32, Option<Seq<char>>)>,
    e: (u32, Option<Seq<char>>),
)
    ensures
        payload_entries_bytes(es.push(e)) == payload_entries_bytes(es) + payload_entry_bytes(e),
    decreases es.len(),
{
    if es.len() == 0 {
        reveal_with_fuel(payload_entries_bytes, 2);
        assert(es.push(e).drop_first() =~= Seq::empty());
        assert(es.push(e)[0] == e);
        assert(payload_entries_bytes(es.push(e)) =~= payload_entries_bytes(es)
            + payload_entry_bytes(e));
    } else {
        lemma_payload_entries_push(es.drop_first(), e);
        assert(es.push(e).drop_first() =~= es.drop_first().push(e));
        assert(es.push(e)[0] == es[0]);
        assert(payload_entries_bytes(es.push(e)) == payload_entry_bytes(es[0]) + (
        payload_entries_bytes(es.drop_first()) + payload_entry_bytes(e)));
        assert(payload_entries_bytes(es.push(e)) =~= payload_entries_bytes(es)
            + payload_entry_bytes(e));
    }
}

/// Id entries written and read back are unchanged, wherever they stand.
pub proof fn lemma_id_entries_round_trip(
    before: Seq<u8>,
    es: Seq<(u32, Seq<char>)>,
    after: Seq<u8>,
)
    requires
        ids_fit(es),
    ensures
        parse_id_entries(before + id_entries_bytes(es) + after, before.len() as int, es.len())
            == Some((es, (before.len() + id_entries_bytes(es).len()) as int)),
    decreases es.len(),
{
    let all = before + id_entries_bytes(es) + after;
    if es.len() == 0 {
    } else {
        lemma_auto_spec_u32_to_from_le_bytes();
        let e = es[0];
        let rest = es.drop_first();
        let p = before.len() as int;
        let num = spec_u32_to_le_bytes(e.0);
        assert(text_fits(e.1));
        assert(all.subrange(p, p + 4) =~= num);
        lemma_text_field_round_trip(before + num, e.1, id_entries_bytes(rest) + after);
        assert(before + num + text_field(e.1) + (id_entries_bytes(rest) + after) =~= all);
        assert(ids_fit(rest)) by {
            assert forall|i: int| 0 <= i < rest.len() implies text_fits(
                (#[trigger] rest[i]).1,
            ) by {
                assert(rest[i] == es[i + 1]);
            }
        }
        lemma_id_entries_round_trip(before + id_entry_bytes(e), rest, after);
        assert(before + id_entry_bytes(e) + id_entries_bytes(rest) + after =~= all);
        assert(seq![e] + rest =~= es);
    }
}

/// A payload entry at the front of what follows `before` is read back
/// whole, and ends where its bytes end.
pub proof fn lemma_payload_entry_front(
    before: Seq<u8>,
    e: (u32, Option<Seq<char>>),
    tail: Seq<u8>,
)
    requires
        e.1 matches Some(t) ==> text_fits(t),
    ensures
        ({
            let all = before + payload_entry_bytes(e) + tail;
            let p = before.len() as int;
            &&& spec_read_u32(all, p) == Some(e.0)
            &&& parse_payload_field(all, p + 4) == Some(e.1)
            &&& payload_field_end(all, p + 4) == p + payload_entry_bytes(e).len()
        }),
{
    lemma_auto_spec_u32_to_from_le_bytes();
    let all = before + payload_entry_bytes(e) + tail;
    let p = before.len() as int;
    let num = spec_u32_to_le_bytes(e.0);
    assert(all.subrange(p, p + 4) =~= num);
    lemma_payload_field_round_trip(before + num, e.1, tail);
    assert(before + num + payload_field(e.1) + tail =~= all);
    match e.1 {
        None => {
            assert(all[p + 4] == 0u8);
        },
        Some(t) => {
            assert(all[p + 4] == 1u8);
            lemma_text_field_round_trip(before + num + seq![1u8], t, tail);
            assert(before + num + seq![1u8] + text_field(t) + tail =~= all);
        },
    }
}

/// Payload entries written and read back are unchanged.
pub proof fn lemma_payload_entries_round_trip(
    before: Seq<u8>,
    es: Seq<(u32, Option<Seq<char>>)>,
    after: Seq<u8>,
)
    requires
        payloads_fit(es),
    ensures
        parse_payload_entries(
            before + payload_entries_bytes(es) + after,
            before.len() as int,
            es.len(),
        ) == Some(es),
    decreases es.len(),
{
    let all = before + payload_entries_bytes(es) + after;
    if es.len() == 0 {
    } else {
        let e = es[0];
        let rest = es.drop_first();
        let tail = payload_entries_bytes(rest) + after;
        assert(e.1 matches Some(t) ==> text_fits(t));
        lemma_payload_entry_front(before, e, tail);
        assert(before + payload_entry_bytes(e) + tail =~= all);
        assert(payloads_fit(rest)) by {
            assert forall|i: int| 0 <= i < rest.len() implies ((#[trigger] rest[i]).1 matches Some(
                t,
            ) ==> text_fits(t)) by {
                assert(rest[i] == es[i + 1]);
            }
        }
        lemma_payload_entries_round_trip(before + payload_entry_bytes(e), rest, after);
        assert(before + payload_entry_bytes(e) + payload_entries_bytes(rest) + after =~= all);
        assert(seq![e] + rest =~= es);
    }
}

/// Writes the id region. Fails with `Serialization` when there are more
/// than `u32::MAX` entries or an id does not fit its length prefix.
pub fn serialize_id_entries(entries: &Vec<IdEntry>) -> (r: Result<Vec<u8>, Error>)
    ensures
        match r {
            Ok(out) => {
                &&& out@ == id_region(id_entries_view(entries@))
                &&& entries@.len() <= u32::MAX
                &&& ids_fit(id_entries_view(entries@))
            },
            Err(e) => e is Serialization && !(entries@.len() <= u32::MAX && ids_fit(
                id_entries_view(entries@),
            )),
        },
{
    let ghost all = id_entries_view(entries@);
    if entries.len() > 0xFFFF_FFFF {
        return Err(Error::Serialization("too many id entries".to_owned()));
    }
    let mut buf: Vec<u8> = Vec::new();
    put_u32(&mut buf, entries.len() as u32);
    let ghost head = buf@;
    let mut i: usize = 0;
    assert(all.take(0) =~= Seq::empty());
    assert(buf@ =~= head + id_entries_bytes(all.take(0)));
    while i < entries.len()
        invariant
            i <= entries@.len(),
            all == id_entries_view(entries@),
            buf@ == head + id_entries_bytes(all.take(i as int)),
            ids_fit(all.take(i as int)),
        decreases entries@.len() - i,
    {
        let ghost before = buf@;
        put_u32(&mut buf, entries[i].internal);
        if !put_text_field(&mut buf, &entries[i].external) {
            assert(!text_fits(all[i as int].1));
            return Err(Error::Serialization("id is too long".to_owned()));
        }
        proof {
            let next = all.take(i as int + 1);
            assert(next =~= all.take(i as int).push(all[i as int]));
            lemma_id_entries_push(all.take(i as int), all[i as int]);
            assert(buf@ =~= head + id_entries_bytes(next));
            assert forall|j: int| 0 <= j < next.len() implies text_fits((#[trigger] next[j]).1) by {
                if j < i {
                    assert(next[j] == all.take(i as int)[j]);
                }
            }
        }
        i += 1;
    }
    assert(all.take(entries@.len() as int) =~= all);
    Ok(buf)
}

/// Reads the id region at the front of `data`; bytes behind it are ignored.
pub fn deserialize_id_entries(data: &[u8]) -> (r: Result<Vec<IdEntry>, Error>)
    ensures
        match parse_id_region(data@, 0) {
            Some(es) => r matches Ok(v) && id_entries_view(v@) == es,
            None => r matches Err(Error::Serialization(_)),
        },
{
    read_id_region(data, 0)
}

/// Reads the id region that starts at `start`.
fn read_id_region(data: &[u8], start: usize) -> (r: Result<Vec<IdEntry>, Error>)
    ensures
        match parse_id_region(data@, start as int) {
            Some(es) => r matches Ok(v) && id_entries_view(v@) == es,
            None => r matches Err(Error::Serialization(_)),
        },
{
    let count = match read_u32(data, start) {
        Some(c) => c,
        None => { return Err(Error::Serialization("failed to read count".to_owned())); },
    };
    let ghost first = start + 4;
    let ghost whole = parse_id_entries(data@, first, count as nat);
    let total = data.len();
    let mut entries: Vec<IdEntry> = Vec::new();
    let mut pos: usize = start + 4;
    let mut i: u32 = 0;
    assert(id_entries_view(entries@) =~= Seq::empty());
    while i < count
        invariant
            i <= count,
            pos <= data@.len(),
            data@.len() <= usize::MAX,
            parse_id_region(data@, start as int) == (match whole {
                Some(r) => Some(r.0),
                None => None,
            }),
            whole == (match parse_id_entries(data@, pos as int, (count - i) as nat) {
                Some(rest) => Some((id_entries_view(entries@) + rest.0, rest.1)),
                None => None,
            }),
        decreases count - i,
    {
        let internal = match read_u32(data, pos) {
            Some(n) => n,
            None => { return Err(Error::Serialization("failed to read internal".to_owned())); },
        };
        let (external, next) = match get_text_field(data, pos + 4) {
            Some(tp) => tp,
            None => { return Err(Error::Serialization("failed to read external".to_owned())); },
        };
        proof {
            let rest = parse_id_entries(data@, next as int, (count - i - 1) as nat);
            if rest is Some {
                assert((id_entries_view(entries@) + seq![(internal, external@)]) + rest.unwrap().0
                    =~= id_entries_view(entries@) + (seq![(internal, external@)] + rest.unwrap().0));
            }
            assert(id_entries_view(entries@.push(IdEntry { internal, external }))
                =~= id_entries_view(entries@) + seq![(internal, external@)]);
        }
        entries.push(IdEntry { internal, external });
        pos = next;
        i += 1;
    }
    proof {
        assert(id_entries_view(entries@) + Seq::empty() =~= id_entries_view(entries@));
    }
    Ok(entries)
}

/// Writes the payload region. Fails with `Serialization` when there are
/// more than `u32::MAX` entries or a payload does not fit its length prefix.
pub fn serialize_payload_entries(entries: &Vec<PayloadEntry>) -> (r: Result<Vec<u8>, Error>)
    ensures
        match r {
            Ok(out) => {
                &&& out@ == payload_region(payload_entries_view(entries@))
                &&& entries@.len() <= u32::MAX
                &&& payloads_fit(payload_entries_view(entries@))
            },
            Err(e) => e is Serialization && !(entries@.len() <= u32::MAX && payloads_fit(
                payload_entries_view(entries@),
            )),
        },
{
    let ghost all = payload_entries_view(entries@);
    if entries.len() > 0xFFFF_FFFF {
        return Err(Error::Serialization("too many payload entries".to_owned()));
    }
    let mut buf: Vec<u8> = Vec::new();
    put_u32(&mut buf, entries.len() as u32);
    let ghost head = buf@;
    let mut i: usize = 0;
    assert(all.take(0) =~= Seq::empty());
    assert(buf@ =~= head + payload_entries_bytes(all.take(0)));
    while i < entries.len()
        invariant
            i <= entries@.len(),
            all == payload_entries_view(entries@),
            buf@ == head + payload_entries_bytes(all.take(i as int)),
            payloads_fit(all.take(i as int)),
        decreases entries@.len() - i,
    {
        put_u32(&mut buf, entries[i].internal_id);
        match &entries[i].payload {
            Some(p) => {
                put_u8(&mut buf, 1);
                if !put_text_field(&mut buf, p) {
                    assert(all[i as int].1 matches Some(t) && !text_fits(t));
                    return Err(Error::Serialization("payload is too long".to_owned()));
                }
            },
            None => {
                put_u8(&mut buf, 0);
            },
        }
        proof {
            let next = all.take(i as int + 1);
            assert(next =~= all.take(i as int).push(all[i as int]));
            lemma_payload_entries_push(all.take(i as int), all[i as int]);
            assert(buf@ =~= head + payload_entries_bytes(next));
            assert forall|j: int| 0 <= j < next.len() implies ((#[trigger] next[j]).1 matches Some(
                t,
            ) ==> text_fits(t)) by {
                if j < i {
                    assert(next[j] == all.take(i as int)[j]);
                }
            }
        }
        i += 1;
    }
    assert(all.take(entries@.len() as int) =~= all);
    Ok(buf)
}

/// Reads the payload region at the front of `data`; bytes behind it are
/// ignored.
pub fn deserialize_payload_entries(data: &[u8]) -> (r: Result<Vec<PayloadEntry>, Error>)
    ensures
        match parse_payload_region(data@, 0) {
            Some(es) => r matches Ok(v) && payload_entries_view(v@) == es,
            None => r matches Err(Error::Serialization(_)),
        },
{
    read_payload_region(data, 0)
}

/// Reads the payload region that starts at `start`.
fn read_payload_region(data: &[u8], start: usize) -> (r: Result<Vec<PayloadEntry>, Error>)
    ensures
        match parse_payload_region(data@, start as int) {
            Some(es) => r matches Ok(v) && payload_entries_view(v@) == es,
            None => r matches Err(Error::Serialization(_)),
        },
{
    let count = match read_u32(data, start) {
        Some(c) => c,
        None => { return Err(Error::Serialization("failed to read count".to_owned())); },
    };
    let ghost whole = parse_payload_entries(data@, start + 4, count as nat);
    let total = data.len();
    let mut entries: Vec<PayloadEntry> = Vec::new();
    let mut pos: usize = start + 4;
    let mut i: u32 = 0;
    assert(payload_entries_view(entries@) =~= Seq::empty());
    while i < count
        invariant
            i <= count,
            pos <= data@.len(),
            total == data@.len(),
            parse_payload_region(data@, start as int) == whole,
            whole == (match parse_payload_entries(data@, pos as int, (count - i) as nat) {
                Some(rest) => Some(payload_entries_view(entries@) + rest),
                None => None,
            }),
        decreases count - i,
    {
        let internal_id = match read_u32(data, pos) {
            Some(n) => n,
            None => {
                return Err(Error::Serialization("failed to read internal_id".to_owned()));
            },
        };
        let flag = match read_u8(data, pos + 4) {
            Some(f) => f,
            None => {
                return Err(Error::Serialization("failed to read has_payload".to_owned()));
            },
        };
        let (payload, next) = if flag != 0 {
            match get_text_field(data, pos + 5) {
                Some(tp) => (Some(tp.0), tp.1),
                None => {
                    return Err(Error::Serialization("failed to read payload".to_owned()));
                },
            }
        } else {
            (None, pos + 5)
        };
        proof {
            let e = (internal_id, text_of(payload));
            let rest = parse_payload_entries(data@, next as int, (count - i - 1) as nat);
            if rest is Some {
                assert((payload_entries_view(entries@) + seq![e]) + rest.unwrap()
                    =~= payload_entries_view(entries@) + (seq![e] + rest.unwrap()));
            }
            assert(payload_entries_view(entries@.push(PayloadEntry { internal_id, payload }))
                =~= payload_entries_view(entries@) + seq![e]);
        }
        entries.push(PayloadEntry { internal_id, payload });
        pos = next;
        i += 1;
    }
    proof {
        assert(payload_entries_view(entries@) + Seq::empty() =~= payload_entries_view(entries@));
    }
    Ok(entries)
}

/// The components of all vectors, document after document.
pub open spec fn flat_vectors(docs: Seq<DocumentView>) -> Seq<u32>
    decreases docs.len(),
{
    if docs.len() == 0 {
        Seq::empty()
    } else {
        flat_vectors(docs.drop_last()) + docs.last().vector
    }
}

/// Whether every vector of `docs` has `dim` components.
pub open spec fn all_dimension(docs: Seq<DocumentView>, dim: nat) -> bool {
    forall|i: int| 0 <= i < docs.len() ==> (#[trigger] docs[i]).vector.len() == dim
}

/// The (number, id) pairs that a segment keeps for `docs`: each id gets, on
/// its first occurrence, the count of ids before it.
pub open spec fn assigned_ids(docs: Seq<DocumentView>) -> Seq<(u32, Seq<char>)>
    decreases docs.len(),
{
    if docs.len() == 0 {
        Seq::empty()
    } else {
        let before = assigned_ids(docs.drop_last());
        if assoc_get(turned(before), docs.last().id) is Some {
            before
        } else {
            before.push((before.len() as u32, docs.last().id))
        }
    }
}

/// The number that `ids` gives to `id`, 0 if it gives none.
pub open spec fn number_of(ids: Seq<(u32, Seq<char>)>, id: Seq<char>) -> u32 {
    match assoc_get(turned(ids), id) {
        Some(n) => n,
        None => 0,
    }
}

/// The payload entries of a segment for `docs`: one per document, in order.
pub open spec fn payload_entries_of(docs: Seq<DocumentView>) -> Seq<(u32, Option<Seq<char>>)> {
    Seq::new(docs.len(), |i: int| (number_of(assigned_ids(docs), docs[i].id), docs[i].payload))
}

/// Everything behind the header: vectors, id region, payload region.
pub open spec fn segment_body(docs: Seq<DocumentView>) -> Seq<u8> {
    words_le(flat_vectors(docs)) + id_region(assigned_ids(docs)) + payload_region(
        payload_entries_of(docs),
    )
}

/// The segment file for `docs` at dimension `dim`.
pub open spec fn segment_file(dim: u32, docs: Seq<DocumentView>) -> Seq<u8> {
    let vectors = words_le(flat_vectors(docs));
    let ids = id_region(assigned_ids(docs));
    header_layout(
        magic(),
        1,
        dim,
        docs.len() as u64,
        64,
        (64 + vectors.len()) as u64,
        (64 + vectors.len() + ids.len()) as u64,
        checksum_of(segment_body(docs)),
    ) + segment_body(docs)
}

/// Whether every id and payload of `docs` fits its length prefix.
pub open spec fn texts_fit(docs: Seq<DocumentView>) -> bool {
    forall|i: int|
        0 <= i < docs.len() ==> text_fits((#[trigger] docs[i]).id) && (docs[i].payload matches Some(
            t,
        ) ==> text_fits(t))
}

/// Whether a segment can be written for `docs` at dimension `dim`: there
/// are documents, no two with the same id, every vector has the
/// dimension, and every count, length and offset fits its field.
pub open spec fn buildable(dim: nat, docs: Seq<DocumentView>) -> bool {
    &&& 0 < docs.len() <= u32::MAX
    &&& dim <= u32::MAX
    &&& distinct_ids(docs)
    &&& all_dimension(docs, dim)
    &&& texts_fit(docs)
    &&& 64 + segment_body(docs).len() <= u64::MAX
}

/// Documents that each get an id entry of their own have distinct ids.
pub proof fn lemma_all_assigned(docs: Seq<DocumentView>)
    requires
        docs.len() <= u32::MAX,
        assigned_ids(docs).len() == docs.len(),
    ensures
        distinct_ids(docs),
    decreases docs.len(),
{
    if docs.len() > 0 {
        let front = docs.drop_last();
        let before = assigned_ids(front);
        let id = docs.last().id;
        lemma_assigned_ids(front);
        lemma_all_assigned(front);
        assert forall|i: int, j: int| 0 <= i < j < docs.len() implies (#[trigger] docs[i]).id != (
        #[trigger] docs[j]).id by {
            if j < front.len() {
                assert(front[i] == docs[i]);
                assert(front[j] == docs[j]);
            } else {
                assert(front[i] == docs[i]);
                assert(assoc_get(turned(before), front[i].id) is Some);
            }
        }
    }
}

/// Words written one list after another are the words of both lists.
pub proof fn lemma_words_le_concat(a: Seq<u32>, b: Seq<u32>)
    ensures
        words_le(a + b) == words_le(a) + words_le(b),
    decreases b.len(),
{
    if b.len() == 0 {
        assert(a + b =~= a);
        assert(words_le(a) + words_le(b) =~= words_le(a));
    } else {
        lemma_words_le_concat(a, b.drop_last());
        assert((a + b).drop_last() =~= a + b.drop_last());
        assert((a + b).last() == b.last());
        assert(words_le(a + b) =~= words_le(a) + words_le(b));
    }
}

/// The ids assigned to `docs` are numbered by position, no id is assigned
/// twice, and every document's id is assigned.
pub proof fn lemma_assigned_ids(docs: Seq<DocumentView>)
    requires
        docs.len() <= u32::MAX,
    ensures
        assigned_ids(docs).len() <= docs.len(),
        forall|k: int|
            0 <= k < assigned_ids(docs).len() ==> (#[trigger] assigned_ids(docs)[k]).0 == k
                && exists|i: int| 0 <= i < docs.len() && docs[i].id == assigned_ids(docs)[k].1,
        assoc_distinct(turned(assigned_ids(docs))),
        assoc_distinct(assigned_ids(docs)),
        forall|i: int|
            0 <= i < docs.len() ==> assoc_get(
                turned(assigned_ids(docs)),
                (#[trigger] docs[i]).id,
            ) is Some,
    decreases docs.len(),
{
    let ids = assigned_ids(docs);
    if docs.len() == 0 {
    } else {
        let front = docs.drop_last();
        let before = assigned_ids(front);
        let id = docs.last().id;
        lemma_assigned_ids(front);
        assert forall|k: int| 0 <= k < ids.len() implies (#[trigger] ids[k]).0 == k && exists|
            i: int,
        |
            0 <= i < docs.len() && docs[i].id == ids[k].1 by {
            if k < before.len() {
                assert(ids[k] == before[k]);
                let i = choose|i: int| 0 <= i < front.len() && front[i].id == before[k].1;
                assert(docs[i] == front[i]);
            } else {
                assert(docs[docs.len() - 1].id == ids[k].1);
            }
        }
        if assoc_get(turned(before), id) is Some {
        } else {
            crate::assoc::lemma_assoc_push(turned(before), id, before.len() as u32);
            assert(turned(ids) =~= turned(before).push((id, before.len() as u32)));
            assert(assoc_distinct(ids)) by {
                assert forall|a: int, b: int| 0 <= a < b < ids.len() implies (#[trigger] ids[a]).0
                    != (#[trigger] ids[b]).0 by {}
            }
        }
        assert forall|i: int| 0 <= i < docs.len() implies assoc_get(
            turned(ids),
            (#[trigger] docs[i]).id,
        ) is Some by {
            if i < front.len() {
                assert(docs[i] == front[i]);
                assert(assoc_get(turned(before), front[i].id) is Some);
                if !(assoc_get(turned(before), id) is Some) {
                    assert(crate::assoc::assoc_map(turned(ids)).contains_key(front[i].id));
                }
            } else {
                if !(assoc_get(turned(before), id) is Some) {
                    assert(crate::assoc::assoc_map(turned(ids)).contains_key(id));
                }
            }
        }
    }
}

/// Collects the documents of a segment and writes its file.
#[derive(Debug)]
pub struct SegmentBuilder {
    dimension: usize,
    documents: Vec<Document>,
    id_mapping: IdMapping,
}

impl SegmentBuilder {
    /// The documents added so far.
    pub closed spec fn docs(&self) -> Seq<DocumentView> {
        documents_view(self.documents@)
    }

    /// The dimension of the segment.
    pub closed spec fn dim(&self) -> nat {
        self.dimension as nat
    }

    /// The builder's invariant: every vector has the builder's dimension,
    /// and the id table holds the ids assigned to the documents.
    pub closed spec fn wf(&self) -> bool {
        &&& self.id_mapping.wf()
        &&& all_dimension(self.docs(), self.dim())
        &&& self.id_mapping.pairs() == assigned_ids(self.docs())
        &&& self.id_mapping.names() == turned(assigned_ids(self.docs()))
        &&& self.id_mapping.upcoming() == assigned_ids(self.docs()).len()
        &&& self.documents@.len() <= u32::MAX
    }

    /// A builder for a segment of the given dimension, holding nothing.
    pub fn new(dimension: usize) -> (b: SegmentBuilder)
        ensures
            b.wf(),
            b.dim() == dimension,
            b.docs() == Seq::<DocumentView>::empty(),
    {
        let b = SegmentBuilder {
            dimension,
            documents: Vec::new(),
            id_mapping: IdMapping::new(),
        };
        assert(b.docs() =~= Seq::<DocumentView>::empty());
        assert(turned(assigned_ids(b.docs())) =~= Seq::empty());
        b
    }

    /// Adds a document.
    ///
    /// Fails with `WrongDimension` when the vector does not have the
    /// builder's dimension, and with `InvalidArgument` when the builder
    /// already holds `u32::MAX` documents; the builder is then unchanged.
    pub fn add(&mut self, doc: Document) -> (r: Result<(), Error>)
        requires
            old(self).wf(),
        ensures
            final(self).wf(),
            final(self).dim() == old(self).dim(),
            doc.vector@.len() != old(self).dim() ==> (r matches Err(
                Error::WrongDimension { expected, got },
            ) && expected == old(self).dim() && got == doc.vector@.len()),
            doc.vector@.len() == old(self).dim() && old(self).docs().len() >= u32::MAX
                ==> r matches Err(Error::InvalidArgument { .. }),
            r is Err ==> final(self).docs() == old(self).docs(),
            doc.vector@.len() == old(self).dim() && old(self).docs().len() < u32::MAX ==> r is Ok
                && final(self).docs() == old(self).docs().push(doc@),
    {
        if doc.vector.len() != self.dimension {
            return Err(
                Error::WrongDimension { expected: self.dimension, got: doc.vector.len() },
            );
        }
        if self.documents.len() >= 0xFFFF_FFFF {
            return Err(Error::invalid_arg("documents", "segment is full"));
        }
        let ghost docs0 = self.docs();
        let ghost ids0 = assigned_ids(docs0);
        proof {
            lemma_assigned_ids(docs0);
            self.id_mapping.lemma_tables();
            if !self.id_mapping.forward().contains_key(doc.id@) {
                assert forall|k: int| 0 <= k < ids0.len() implies (#[trigger] ids0[k]).0
                    != ids0.len() as u32 by {}
                lemma_assoc_absent(ids0, ids0.len() as u32);
            }
        }
        let _ = self.id_mapping.insert(doc.id.clone());
        self.documents.push(doc);
        proof {
            let docs1 = self.docs();
            assert(docs1 =~= docs0.push(doc@));
            assert(docs1.drop_last() =~= docs0);
            assert(docs1.last() == doc@);
            if !(assoc_get(turned(ids0), doc.id@) is Some) {
                assert(turned(ids0.push((ids0.len() as u32, doc.id@))) =~= turned(ids0).push(
                    (doc.id@, ids0.len() as u32),
                ));
            }
            assert forall|i: int| 0 <= i < docs1.len() implies (#[trigger] docs1[i]).vector.len()
                == self.dim() by {
                if i < docs0.len() {
                    assert(docs1[i] == docs0[i]);
                }
            }
        }
        Ok(())
    }

    /// Number of documents added.
    pub fn len(&self) -> (r: usize)
        ensures
            r == self.docs().len(),
    {
        self.documents.len()
    }

    /// Whether no document was added.
    pub fn is_empty(&self) -> (r: bool)
        ensures
            r == (self.docs().len() == 0),
    {
        self.documents.len() == 0
    }

    /// The packed vectors of all documents.
    fn vector_data(&self) -> (out: Vec<u8>)
        ensures
            out@ == words_le(flat_vectors(self.docs())),
    {
        let ghost docs = self.docs();
        let mut out: Vec<u8> = Vec::new();
        let mut i: usize = 0;
        assert(docs.take(0) =~= Seq::empty());
        assert(out@ =~= words_le(flat_vectors(docs.take(0))));
        while i < self.documents.len()
            invariant
                i <= self.documents@.len(),
                docs == documents_view(self.documents@),
                out@ == words_le(flat_vectors(docs.take(i as int))),
            decreases self.documents@.len() - i,
        {
            put_words(&mut out, &self.documents[i].vector);
            proof {
                let next = docs.take(i as int + 1);
                assert(next.drop_last() =~= docs.take(i as int));
                assert(next.last() == docs[i as int]);
                lemma_words_le_concat(flat_vectors(docs.take(i as int)), docs[i as int].vector);
            }
            i += 1;
        }
        assert(docs.take(self.documents@.len() as int) =~= docs);
        out
    }

    /// The id entries of the segment.
    fn id_entries(&self) -> (out: Vec<IdEntry>)
        requires
            self.wf(),
        ensures
            id_entries_view(out@) == assigned_ids(self.docs()),
    {
        proof {
            lemma_assigned_ids(self.docs());
            let ids = assigned_ids(self.docs());
            assert forall|a: int, b: int| 0 <= a < b < ids.len() implies (#[trigger] ids[a]).0 < (
            #[trigger] ids[b]).0 by {
                assert(ids[a].0 == a);
                assert(ids[b].0 == b);
            }
        }
        let pairs = self.id_mapping.to_vec();
        let mut out: Vec<IdEntry> = Vec::new();
        let mut i: usize = 0;
        while i < pairs.len()
            invariant
                i <= pairs@.len(),
                out@.len() == i,
                forall|j: int|
                    0 <= j < i ==> out@[j].internal == pairs@[j].0 && out@[j].external@
                        == pairs@[j].1@,
            decreases pairs@.len() - i,
        {
            out.push(IdEntry { internal: pairs[i].0, external: pairs[i].1.clone() });
            i += 1;
        }
        assert(id_entries_view(out@) =~= crate::id::number_pairs(pairs@));
        out
    }

    /// The payload entries of the segment.
    fn payload_entries(&self) -> (out: Vec<PayloadEntry>)
        requires
            self.wf(),
        ensures
            payload_entries_view(out@) == payload_entries_of(self.docs()),
    {
        let ghost docs = self.docs();
        let mut out: Vec<PayloadEntry> = Vec::new();
        let mut i: usize = 0;
        proof {
            self.id_mapping.lemma_tables();
        }
        while i < self.documents.len()
            invariant
                i <= self.documents@.len(),
                self.wf(),
                docs == self.docs(),
                self.id_mapping.forward() == assoc_map(turned(assigned_ids(docs))),
                out@.len() == i,
                forall|j: int| 0 <= j < i ==> (#[trigger] out@[j])@ == payload_entries_of(docs)[j],
            decreases self.documents@.len() - i,
        {
            let internal_id = match self.id_mapping.get_internal(self.documents[i].id.as_str()) {
                Some(n) => n,
                None => 0,
            };
            let payload = clone_text(&self.documents[i].payload);
            assert(docs[i as int] == self.documents@[i as int]@);
            out.push(PayloadEntry { internal_id, payload });
            i += 1;
        }
        assert(payload_entries_view(out@) =~= payload_entries_of(docs));
        out
    }

    /// Writes the segment file.
    ///
    /// Fails with `InvalidArgument` when no document was added, and with
    /// `Serialization` when the dimension, a text or the file as a whole is
    /// too large for the format.
    pub fn build(&self) -> (r: Result<Vec<u8>, Error>)
        requires
            self.wf(),
        ensures
            self.docs().len() == 0 ==> r matches Err(Error::InvalidArgument { .. }),
            buildable(self.dim(), self.docs()) ==> (r matches Ok(out) && out@ == segment_file(
                self.dim() as u32,
                self.docs(),
            )),
            self.docs().len() > 0 && !buildable(self.dim(), self.docs()) ==> r matches Err(
                Error::Serialization(_),
            ),
    {
        if self.documents.len() == 0 {
            return Err(Error::invalid_arg("documents", "cannot build empty segment"));
        }
        if self.dimension > 0xFFFF_FFFF {
            return Err(Error::Serialization("dimension is too large".to_owned()));
        }
        let ghost docs = self.docs();
        proof {
            lemma_assigned_ids(docs);
        }
        let vector_data = self.vector_data();
        let id_entries = self.id_entries();
        if id_entries.len() != self.documents.len() {
            proof {
                if distinct_ids(docs) {
                    lemma_assigned_by_position(docs);
                }
            }
            return Err(Error::Serialization("an id occurs twice".to_owned()));
        }
        proof {
            lemma_all_assigned(docs);
        }
        let id_bytes = match serialize_id_entries(&id_entries) {
            Ok(b) => b,
            Err(e) => {
                proof {
                    let ids = assigned_ids(docs);
                    if texts_fit(docs) {
                        assert forall|k: int| 0 <= k < ids.len() implies text_fits(
                            (#[trigger] ids[k]).1,
                        ) by {
                            let i = choose|i: int| 0 <= i < docs.len() && docs[i].id == ids[k].1;
                            assert(text_fits(docs[i].id));
                        }
                    }
                }
                return Err(e);
            },
        };
        let payload_entries = self.payload_entries();
        let payload_bytes = match serialize_payload_entries(&payload_entries) {
            Ok(b) => b,
            Err(e) => {
                proof {
                    let es = payload_entries_of(docs);
                    if texts_fit(docs) {
                        assert forall|i: int| 0 <= i < es.len() implies ((#[trigger] es[i]).1 matches Some(
                            t,
                        ) ==> text_fits(t)) by {
                            assert(text_fits(docs[i].id));
                        }
                    }
                }
                return Err(e);
            },
        };
        proof {
            let ids = assigned_ids(docs);
            assert(texts_fit(docs)) by {
                assert forall|i: int| 0 <= i < docs.len() implies text_fits(
                    (#[trigger] docs[i]).id,
                ) && (docs[i].payload matches Some(t) ==> text_fits(t)) by {
                    let es = payload_entries_of(docs);
                    assert(es[i].1 == docs[i].payload);
                    let n = lemma_assoc_present_turned(ids, docs[i].id);
                    assert(text_fits(ids[n].1));
                }
            }
            assert(all_dimension(docs, self.dim()));
        }
        let vlen = vector_data.len() as u64;
        let ilen = id_bytes.len() as u64;
        let plen = payload_bytes.len() as u64;
        if vlen > u64::MAX - 64 || ilen > u64::MAX - 64 - vlen || plen > u64::MAX - 64 - vlen
            - ilen {
            return Err(Error::Serialization("segment is too large".to_owned()));
        }
        let vector_offset: u64 = align_to(HEADER_SIZE, ALIGNMENT) as u64;
        let id_mapping_offset: u64 = vector_offset + vlen;
        let payload_offset: u64 = id_mapping_offset + ilen;
        let mut body: Vec<u8> = Vec::new();
        put_bytes(&mut body, vector_data.as_slice());
        put_bytes(&mut body, id_bytes.as_slice());
        put_bytes(&mut body, payload_bytes.as_slice());
        assert(body@ =~= segment_body(docs));
        let checksum = SegmentHeader::compute_checksum(body.as_slice());
        let mut header = SegmentHeader::new(
            self.dimension as u32,
            self.documents.len() as u64,
            vector_offset,
            id_mapping_offset,
            payload_offset,
        );
        header.checksum = checksum;
        let mut out = header.to_bytes();
        put_bytes(&mut out, body.as_slice());
        Ok(out)
    }
}

/// An id with a number in the turned list is the id of one of its pairs.
pub proof fn lemma_assoc_present_turned(ids: Seq<(u32, Seq<char>)>, id: Seq<char>) -> (n: int)
    requires
        assoc_get(turned(ids), id) is Some,
    ensures
        0 <= n < ids.len(),
        ids[n].1 == id,
        assoc_get(turned(ids), id) == Some(ids[n].0),
{
    let n = crate::assoc::lemma_assoc_present(turned(ids), id);
    assert(turned(ids)[n] == (ids[n].1, ids[n].0));
    n
}

/// Whether the header of `file` matches its body: the vectors start
/// behind the header, the id region starts behind the vectors of all
/// documents, the payload region behind it, and the file goes on behind
/// the start of the payload region.
pub open spec fn layout_ok(file: Seq<u8>) -> bool {
    &&& file_vector_offset(file) == 64
    &&& file_id_offset(file) == 64 + 4 * (file_doc_count(file) * file_dimension(file))
    &&& file_id_offset(file) < file_payload_offset(file)
    &&& file_payload_offset(file) < file.len()
}

/// Whether the id entries are one per document, numbered by position,
/// with no id twice.
pub open spec fn ids_in_order(ids: Seq<(u32, Seq<char>)>, count: u64) -> bool {
    &&& count <= u32::MAX
    &&& ids.len() == count
    &&& forall|k: int| 0 <= k < ids.len() ==> (#[trigger] ids[k]).0 == k
    &&& forall|a: int, b: int| 0 <= a < b < ids.len() ==> (#[trigger] ids[a]).1 != (#[trigger] ids[b]).1
}

/// Whether the id table of `file` matches its documents: it can be read,
/// and holds one entry per document, numbered by position, with no id
/// twice.
pub open spec fn ids_ok(file: Seq<u8>) -> bool {
    file_ids(file) matches Some(ids) && ids_in_order(ids, file_doc_count(file))
}

/// Whether the checksum in the header of `file` is that of the bytes
/// behind the header.
pub open spec fn checksum_ok(file: Seq<u8>) -> bool {
    checksum_of(file.skip(64)) == file_checksum(file)
}

/// Whether a file is accepted as a segment: it has a whole header with the
/// right magic and version, the checksum in the header is that of the
/// bytes behind it, the header matches the body, and the id table
/// matches the documents.
pub open spec fn file_accepts(file: Seq<u8>) -> bool {
    &&& magic_ok(file)
    &&& version_ok(file)
    &&& checksum_ok(file)
    &&& layout_ok(file)
    &&& ids_ok(file)
}

/// The key under which the id of entry `a` is filed while the entries
/// are checked: the CRC-32 of its bytes.
pub open spec fn id_key(es: Seq<(u32, Seq<char>)>, a: int) -> u32 {
    crate::wal::crc32_of(encode_utf8(es[a].1))
}

/// Whether entry `a` is filed under its key.
pub open spec fn filed(m: Map<u32, Vec<usize>>, es: Seq<(u32, Seq<char>)>, a: int) -> bool {
    m.contains_key(id_key(es, a)) && m[id_key(es, a)]@.contains(a as usize)
}

/// Whether the list holds only entries below `k` that have the key `h`.
pub open spec fn bucket_ok(list: Seq<usize>, es: Seq<(u32, Seq<char>)>, k: int, h: u32) -> bool {
    forall|x: int| 0 <= x < list.len() ==> (#[trigger] list[x]) < k && id_key(es, list[x] as int) == h
}

/// Whether the id entries are one per document, numbered by position,
/// with no id twice. The ids met are filed by a checksum of their bytes,
/// so that each is compared only with those of the same checksum.
fn check_ids(ids: &Vec<IdEntry>, count: u64) -> (r: bool)
    ensures
        r == ids_in_order(id_entries_view(ids@), count),
{
    let ghost es = id_entries_view(ids@);
    if count > 0xFFFF_FFFF || ids.len() as u64 != count {
        return false;
    }
    let mut buckets: HashMap<u32, Vec<usize>> = HashMap::new();
    let mut k: usize = 0;
    while k < ids.len()
        invariant
            k <= ids@.len(),
            ids@.len() <= u32::MAX,
            es == id_entries_view(ids@),
            forall|j: int| 0 <= j < k ==> (#[trigger] es[j]).0 == j,
            forall|a: int, b: int| 0 <= a < b < k ==> (#[trigger] es[a]).1 != (#[trigger] es[b]).1,
            forall|a: int| 0 <= a < k ==> #[trigger] filed(buckets@, es, a),
            forall|h: u32| buckets@.contains_key(h) ==> #[trigger] bucket_ok(buckets@[h]@, es, k as int, h),
        decreases ids@.len() - k,
    {
        if ids[k].internal as usize != k {
            assert(es[k as int].0 != k);
            return false;
        }
        let bytes = ids[k].external.as_str().as_bytes();
        let h = crate::wal::crc32(bytes);
        assert(h == id_key(es, k as int));
        let ghost before = buckets@;
        let mut list: Vec<usize> = match buckets.remove(&h) {
            Some(l) => l,
            None => Vec::new(),
        };
        let ghost held = list@;
        assert(bucket_ok(held, es, k as int, h)) by {
            if before.contains_key(h) {
                assert(bucket_ok(before[h]@, es, k as int, h));
            }
        }
        let mut j: usize = 0;
        while j < list.len()
            invariant
                j <= list@.len(),
                list@ == held,
                k < ids@.len(),
                es == id_entries_view(ids@),
                bucket_ok(held, es, k as int, h),
                forall|x: int| 0 <= x < j ==> es[(#[trigger] held[x]) as int].1 != es[k as int].1,
            decreases list@.len() - j,
        {
            let other = list[j];
            assert(held[j as int] < k);
            if text_eq(ids[other].external.as_str(), ids[k].external.as_str()) {
                assert(es[other as int].1 == es[k as int].1);
                return false;
            }
            j += 1;
        }
        proof {
            assert forall|a: int| 0 <= a < k implies (#[trigger] es[a]).1 != es[k as int].1 by {
                if id_key(es, a) == h {
                    assert(filed(before, es, a));
                    let x = choose|x: int| 0 <= x < before[h]@.len() && before[h]@[x] == a as usize;
                    assert(held[x] == a as usize);
                }
            }
        }
        list.push(k);
        buckets.insert(h, list);
        proof {
            let after = buckets@;
            let grown = held.push(k);
            assert(after[h]@ == grown);
            assert forall|a: int| 0 <= a < k + 1 implies #[trigger] filed(after, es, a) by {
                if a == k {
                    assert(grown[held.len() as int] == k);
                } else {
                    assert(filed(before, es, a));
                    if id_key(es, a) == h {
                        let x = choose|x: int|
                            0 <= x < before[h]@.len() && before[h]@[x] == a as usize;
                        assert(grown[x] == a as usize);
                    } else {
                        assert(after[id_key(es, a)] == before[id_key(es, a)]);
                    }
                }
            }
            assert forall|g: u32| after.contains_key(g) implies #[trigger] bucket_ok(
                after[g]@,
                es,
                k + 1,
                g,
            ) by {
                if g == h {
                    assert forall|x: int| 0 <= x < grown.len() implies (#[trigger] grown[x]) < k + 1
                        && id_key(es, grown[x] as int) == h by {
                        if x < held.len() {
                            assert(grown[x] == held[x]);
                        }
                    }
                } else {
                    assert(before.contains_key(g));
                    assert(after[g] == before[g]);
                    assert(bucket_ok(before[g]@, es, k as int, g));
                }
            }
        }
        k += 1;
    }
    true
}

/// The vector of the document numbered `i`: the `dimension` words at its
/// place in the vector region, if `i` is below the document count and the
/// file holds them.
pub open spec fn file_vector(file: Seq<u8>, i: u32) -> Option<Seq<u32>> {
    if (i as int) < file_doc_count(file) {
        spec_read_words(
            file,
            file_vector_offset(file) + 4 * (i * file_dimension(file)),
            file_dimension(file) as nat,
        )
    } else {
        None
    }
}

/// The id entries of a file, if its id region is well-formed.
pub open spec fn file_ids(file: Seq<u8>) -> Option<Seq<(u32, Seq<char>)>> {
    parse_id_region(file, file_id_offset(file) as int)
}

/// The payload entries of a file, if its payload region is well-formed.
pub open spec fn file_payloads(file: Seq<u8>) -> Option<Seq<(u32, Option<Seq<char>>)>> {
    parse_payload_region(file, file_payload_offset(file) as int)
}

/// The id of the first entry numbered `n`.
pub open spec fn first_external(es: Seq<(u32, Seq<char>)>, n: u32) -> Option<Seq<char>>
    decreases es.len(),
{
    if es.len() == 0 {
        None
    } else if es[0].0 == n {
        Some(es[0].1)
    } else {
        first_external(es.drop_first(), n)
    }
}

/// The number of the first entry with id `id`.
pub open spec fn first_internal(es: Seq<(u32, Seq<char>)>, id: Seq<char>) -> Option<u32>
    decreases es.len(),
{
    if es.len() == 0 {
        None
    } else if es[0].1 == id {
        Some(es[0].0)
    } else {
        first_internal(es.drop_first(), id)
    }
}

/// The payload of the first entry numbered `n`; nothing when that entry
/// has no payload or there is no such entry.
pub open spec fn first_payload(es: Seq<(u32, Option<Seq<char>>)>, n: u32) -> Option<Seq<char>>
    decreases es.len(),
{
    if es.len() == 0 {
        None
    } else if es[0].0 == n {
        es[0].1
    } else {
        first_payload(es.drop_first(), n)
    }
}

/// The external id of the document numbered `n`.
pub open spec fn file_external(file: Seq<u8>, n: u32) -> Option<Seq<char>> {
    match file_ids(file) {
        Some(es) => first_external(es, n),
        None => None,
    }
}

/// The internal number of the document with id `id`.
pub open spec fn file_internal(file: Seq<u8>, id: Seq<char>) -> Option<u32> {
    match file_ids(file) {
        Some(es) => first_internal(es, id),
        None => None,
    }
}

/// The payload text of the document numbered `n`.
pub open spec fn file_payload(file: Seq<u8>, n: u32) -> Option<Seq<char>> {
    match file_payloads(file) {
        Some(es) => first_payload(es, n),
        None => None,
    }
}

/// The documents of a file numbered below `n`, in order of their numbers:
/// each number that has both an id and a vector gives one document.
pub open spec fn file_rows(file: Seq<u8>, n: nat) -> Seq<(u32, DocumentView)>
    decreases n,
{
    if n == 0 {
        Seq::empty()
    } else {
        let i = (n - 1) as u32;
        let before = file_rows(file, (n - 1) as nat);
        match (file_external(file, i), file_vector(file, i)) {
            (Some(id), Some(vector)) => before.push(
                (i, DocumentView { id, vector, payload: file_payload(file, i) }),
            ),
            _ => before,
        }
    }
}

/// The number of documents that a file's rows run over: its document
/// count, cut to 32 bits.
pub open spec fn file_row_limit(file: Seq<u8>) -> nat {
    (file_doc_count(file) % 0x1_0000_0000) as nat
}

/// An immutable segment, held as the bytes of its file.
#[derive(Debug)]
pub struct Segment {
    path: String,
    header: SegmentHeader,
    data: Vec<u8>,
    ids: Option<Vec<IdEntry>>,
    payloads: Option<Vec<PayloadEntry>>,
}

/// The entries of an optional list of id entries.
pub open spec fn opt_ids_view(v: Option<Vec<IdEntry>>) -> Option<Seq<(u32, Seq<char>)>> {
    match v {
        Some(es) => Some(id_entries_view(es@)),
        None => None,
    }
}

/// The entries of an optional list of payload entries.
pub open spec fn opt_payloads_view(v: Option<Vec<PayloadEntry>>) -> Option<
    Seq<(u32, Option<Seq<char>>)>,
> {
    match v {
        Some(es) => Some(payload_entries_view(es@)),
        None => None,
    }
}

impl Segment {
    /// The bytes of the segment file.
    pub closed spec fn bytes(&self) -> Seq<u8> {
        self.data@
    }

    /// The path the segment was opened from.
    pub closed spec fn location(&self) -> Seq<char> {
        self.path@
    }

    /// The header the segment was opened with.
    pub closed spec fn head(&self) -> SegmentHeader {
        self.header
    }

    /// The segment's invariant: the file was accepted, and the header and
    /// the entry tables kept beside the bytes are those of the file.
    pub closed spec fn wf(&self) -> bool {
        &&& file_accepts(self.data@)
        &&& header_matches(self.header, self.data@)
        &&& opt_ids_view(self.ids) == file_ids(self.data@)
        &&& opt_payloads_view(self.payloads) == file_payloads(self.data@)
    }

    /// Opens a segment from the bytes of its file. `path` names the file in
    /// errors.
    ///
    /// Fails with `Corruption` when the file is shorter than a header or
    /// its magic or version is wrong, with `ChecksumMismatch` when the
    /// checksum of the bytes behind the header is not the one in the
    /// header, with `Corruption` at the offset of the header's region
    /// offsets when the header does not match the body, and with
    /// `Corruption` at the start of the id table when the table does not
    /// hold one entry per document, numbered by position, with no id
    /// twice.
    pub fn open(path: &str, bytes: Vec<u8>) -> (r: Result<Segment, Error>)
        ensures
            !(magic_ok(bytes@) && version_ok(bytes@)) ==> (r matches Err(
                Error::Corruption { file, offset, message },
            ) && file@ == path@ && offset == (if magic_ok(bytes@) {
                4u64
            } else {
                0u64
            }) && message@ == (if magic_ok(bytes@) {
                "unsupported version"@
            } else if bytes@.len() < 64 {
                "failed to read magic"@
            } else {
                "invalid magic"@
            })),
            magic_ok(bytes@) && version_ok(bytes@) && !checksum_ok(bytes@) ==> (r matches Err(
                Error::ChecksumMismatch { file, expected, got },
            ) && file@ == path@ && expected == file_checksum(bytes@) && got == checksum_of(
                bytes@.skip(64),
            )),
            magic_ok(bytes@) && version_ok(bytes@) && checksum_ok(bytes@) && !layout_ok(bytes@)
                ==> (r matches Err(Error::Corruption { file, offset, message }) && file@ == path@
                && offset == 20 && message@ == "header does not match the body"@),
            magic_ok(bytes@) && version_ok(bytes@) && checksum_ok(bytes@) && layout_ok(bytes@)
                && !ids_ok(bytes@) ==> (r matches Err(Error::Corruption { file, offset, message })
                && file@ == path@ && offset == file_id_offset(bytes@) && message@
                == "id table does not match the documents"@),
            file_accepts(bytes@) ==> (r matches Ok(s) && s.wf() && s.bytes() == bytes@
                && s.location() == path@ && header_matches(s.head(), bytes@)),
    {
        let header = match SegmentHeader::from_bytes(bytes.as_slice()) {
            Ok(h) => h,
            Err(Error::Corruption { offset, message, .. }) => {
                return Err(Error::Corruption { file: path.to_owned(), offset, message });
            },
            Err(e) => { return Err(e); },
        };
        let body = vstd::slice::slice_subrange(bytes.as_slice(), 64, bytes.len());
        assert(body@ =~= bytes@.skip(64));
        let computed = SegmentHeader::compute_checksum(body);
        if computed != header.checksum {
            return Err(
                Error::ChecksumMismatch {
                    file: path.to_owned(),
                    expected: header.checksum,
                    got: computed,
                },
            );
        }
        assert(header.doc_count as u128 * header.dimension as u128
            <= 0xFFFF_FFFF_FFFF_FFFFu128 * 0xFFFF_FFFFu128) by (nonlinear_arith)
            requires
                header.doc_count <= 0xFFFF_FFFF_FFFF_FFFFu64,
                header.dimension <= 0xFFFF_FFFFu32,
        ;
        let vectors_end: u128 = 64 + 4 * (header.doc_count as u128 * header.dimension as u128);
        if header.vector_offset != 64 || header.id_mapping_offset as u128 != vectors_end
            || header.id_mapping_offset >= header.payload_offset || header.payload_offset
            >= bytes.len() as u64 {
            return Err(
                Error::Corruption {
                    file: path.to_owned(),
                    offset: 20,
                    message: "header does not match the body".to_owned(),
                },
            );
        }
        let ids = if header.id_mapping_offset <= bytes.len() as u64 {
            match read_id_region(bytes.as_slice(), header.id_mapping_offset as usize) {
                Ok(v) => Some(v),
                Err(_) => None,
            }
        } else {
            None
        };
        let ids_fine = match &ids {
            Some(v) => check_ids(v, header.doc_count),
            None => false,
        };
        if !ids_fine {
            return Err(
                Error::Corruption {
                    file: path.to_owned(),
                    offset: header.id_mapping_offset,
                    message: "id table does not match the documents".to_owned(),
                },
            );
        }
        let payloads = if header.payload_offset <= bytes.len() as u64 {
            match read_payload_region(bytes.as_slice(), header.payload_offset as usize) {
                Ok(v) => Some(v),
                Err(_) => None,
            }
        } else {
            None
        };
        Ok(Segment { path: path.to_owned(), header, data: bytes, ids, payloads })
    }

    /// In a well-formed segment the file is accepted and the header is
    /// that of the file, so the header matches the body.
    pub proof fn law_header(&self)
        requires
            self.wf(),
        ensures
            file_accepts(self.bytes()),
            header_matches(self.head(), self.bytes()),
            layout_ok(self.bytes()),
            self.head().vector_offset == 64,
            self.head().id_mapping_offset == 64 + 4 * (self.head().doc_count
                * self.head().dimension),
            self.head().id_mapping_offset < self.head().payload_offset < self.bytes().len(),
    {
    }

    /// The header.
    pub fn header(&self) -> (r: &SegmentHeader)
        ensures
            *r == self.head(),
    {
        &self.header
    }

    /// Number of components per vector.
    pub fn dimension(&self) -> (r: usize)
        ensures
            r == self.head().dimension as usize,
    {
        self.header.dimension as usize
    }

    /// Number of documents.
    pub fn doc_count(&self) -> (r: usize)
        ensures
            r == self.head().doc_count as usize,
    {
        self.header.doc_count as usize
    }

    /// The path the segment was opened from.
    pub fn path(&self) -> (r: &str)
        ensures
            r@ == self.location(),
    {
        self.path.as_str()
    }

    /// The bytes of the segment file.
    pub fn as_bytes(&self) -> (r: &[u8])
        ensures
            r@ == self.bytes(),
    {
        self.data.as_slice()
    }

    /// The vector of the document numbered `internal_id`.
    pub fn get_vector(&self, internal_id: u32) -> (r: Option<Vec<u32>>)
        requires
            self.wf(),
        ensures
            r is Some == file_vector(self.bytes(), internal_id) is Some,
            r matches Some(v) ==> Some(v@) == file_vector(self.bytes(), internal_id),
    {
        if internal_id as u64 >= self.header.doc_count {
            return None;
        }
        let dim = self.header.dimension;
        assert(internal_id as u64 * dim as u64 <= 0xFFFF_FFFF * 0xFFFF_FFFF) by (nonlinear_arith)
            requires
                internal_id <= 0xFFFF_FFFF,
                dim <= 0xFFFF_FFFF,
        ;
        let words: u64 = internal_id as u64 * dim as u64;
        let offset: u128 = self.header.vector_offset as u128 + 4 * (words as u128);
        if offset > self.data.len() as u128 {
            return None;
        }
        read_words(self.data.as_slice(), offset as usize, dim as usize)
    }

    /// The external id of the document numbered `internal_id`.
    pub fn get_external_id(&self, internal_id: u32) -> (r: Option<String>)
        requires
            self.wf(),
        ensures
            r is Some == file_external(self.bytes(), internal_id) is Some,
            r matches Some(s) ==> Some(s@) == file_external(self.bytes(), internal_id),
    {
        let entries = match &self.ids {
            Some(es) => es,
            None => { return None; },
        };
        let ghost all = id_entries_view(entries@);
        let mut i: usize = 0;
        assert(all.skip(0) =~= all);
        while i < entries.len()
            invariant
                i <= entries@.len(),
                all == id_entries_view(entries@),
                file_ids(self.bytes()) == Some(all),
                first_external(all, internal_id) == first_external(all.skip(i as int), internal_id),
            decreases entries@.len() - i,
        {
            assert(all.skip(i as int)[0] == all[i as int]);
            assert(all.skip(i as int).drop_first() =~= all.skip(i as int + 1));
            if entries[i].internal == internal_id {
                return Some(entries[i].external.clone());
            }
            i += 1;
        }
        None
    }

    /// The internal number of the document with id `external_id`.
    pub fn get_internal_id(&self, external_id: &str) -> (r: Option<u32>)
        requires
            self.wf(),
        ensures
            r == file_internal(self.bytes(), external_id@),
    {
        let entries = match &self.ids {
            Some(es) => es,
            None => { return None; },
        };
        let ghost all = id_entries_view(entries@);
        let mut i: usize = 0;
        assert(all.skip(0) =~= all);
        while i < entries.len()
            invariant
                i <= entries@.len(),
                all == id_entries_view(entries@),
                file_ids(self.bytes()) == Some(all),
                first_internal(all, external_id@) == first_internal(
                    all.skip(i as int),
                    external_id@,
                ),
            decreases entries@.len() - i,
        {
            assert(all.skip(i as int)[0] == all[i as int]);
            assert(all.skip(i as int).drop_first() =~= all.skip(i as int + 1));
            if text_eq(entries[i].external.as_str(), external_id) {
                return Some(entries[i].internal);
            }
            i += 1;
        }
        None
    }

    /// The payload text of the document numbered `internal_id`.
    pub fn get_payload(&self, internal_id: u32) -> (r: Option<String>)
        requires
            self.wf(),
        ensures
            text_of(r) == file_payload(self.bytes(), internal_id),
    {
        let entries = match &self.payloads {
            Some(es) => es,
            None => { return None; },
        };
        let ghost all = payload_entries_view(entries@);
        let mut i: usize = 0;
        assert(all.skip(0) =~= all);
        while i < entries.len()
            invariant
                i <= entries@.len(),
                all == payload_entries_view(entries@),
                file_payloads(self.bytes()) == Some(all),
                first_payload(all, internal_id) == first_payload(all.skip(i as int), internal_id),
            decreases entries@.len() - i,
        {
            assert(all.skip(i as int)[0] == all[i as int]);
            assert(all.skip(i as int).drop_first() =~= all.skip(i as int + 1));
            if entries[i].internal_id == internal_id {
                return clone_text(&entries[i].payload);
            }
            i += 1;
        }
        None
    }

    /// The vectors of the documents, in order of their numbers, up to the
    /// first number that has none.
    pub fn iter_vectors(&self) -> (r: Vec<Vec<u32>>)
        requires
            self.wf(),
        ensures
            forall|i: int|
                0 <= i < r@.len() ==> Some((#[trigger] r@[i])@) == file_vector(
                    self.bytes(),
                    i as u32,
                ),
            r@.len() <= file_row_limit(self.bytes()),
            r@.len() < file_row_limit(self.bytes()) ==> file_vector(
                self.bytes(),
                r@.len() as u32,
            ) is None,
    {
        let n: u32 = (self.header.doc_count % 0x1_0000_0000) as u32;
        let mut out: Vec<Vec<u32>> = Vec::new();
        let mut i: u32 = 0;
        while i < n
            invariant
                i <= n,
                n == file_row_limit(self.bytes()),
                self.wf(),
                out@.len() == i,
                forall|j: int|
                    0 <= j < out@.len() ==> Some((#[trigger] out@[j])@) == file_vector(
                        self.bytes(),
                        j as u32,
                    ),
            decreases n - i,
        {
            match self.get_vector(i) {
                Some(v) => {
                    out.push(v);
                },
                None => {
                    return out;
                },
            }
            i += 1;
        }
        out
    }

    /// The documents of the segment with their internal numbers, in order
    /// of the numbers.
    pub fn iter(&self) -> (r: Vec<(u32, Document)>)
        requires
            self.wf(),
        ensures
            rows_view(r@) == file_rows(self.bytes(), file_row_limit(self.bytes())),
    {
        let n: u32 = (self.header.doc_count % 0x1_0000_0000) as u32;
        let mut out: Vec<(u32, Document)> = Vec::new();
        let mut i: u32 = 0;
        assert(rows_view(out@) =~= file_rows(self.bytes(), 0));
        while i < n
            invariant
                i <= n,
                self.wf(),
                rows_view(out@) == file_rows(self.bytes(), i as nat),
            decreases n - i,
        {
            let ghost before = rows_view(out@);
            match self.get_external_id(i) {
                Some(id) => {
                    match self.get_vector(i) {
                        Some(vector) => {
                            let payload = self.get_payload(i);
                            out.push((i, Document { id, vector, payload }));
                            assert(rows_view(out@) =~= before.push(
                                (
                                    i,
                                    DocumentView {
                                        id: id@,
                                        vector: vector@,
                                        payload: text_of(payload),
                                    },
                                ),
                            ));
                        },
                        None => {},
                    }
                },
                None => {},
            }
            i += 1;
        }
        out
    }
}

/// Numbered documents as mathematical values.
pub open spec fn rows_view(v: Seq<(u32, Document)>) -> Seq<(u32, DocumentView)> {
    Seq::new(v.len(), |i: int| (v[i].0, v[i].1@))
}

/// Whether no two documents of `docs` share an id.
pub open spec fn distinct_ids(docs: Seq<DocumentView>) -> bool {
    forall|i: int, j: int|
        0 <= i < j < docs.len() ==> (#[trigger] docs[i]).id != (#[trigger] docs[j]).id
}

/// Documents with distinct ids are numbered by their position.
pub proof fn lemma_assigned_by_position(docs: Seq<DocumentView>)
    requires
        docs.len() <= u32::MAX,
        distinct_ids(docs),
    ensures
        assigned_ids(docs) == Seq::new(docs.len(), |i: int| (i as u32, docs[i].id)),
        payload_entries_of(docs) == Seq::new(docs.len(), |i: int| (i as u32, docs[i].payload)),
    decreases docs.len(),
{
    let want = Seq::new(docs.len(), |i: int| (i as u32, docs[i].id));
    if docs.len() == 0 {
        assert(assigned_ids(docs) =~= want);
    } else {
        let front = docs.drop_last();
        assert(distinct_ids(front)) by {
            assert forall|i: int, j: int| 0 <= i < j < front.len() implies (#[trigger] front[i]).id
                != (#[trigger] front[j]).id by {
                assert(front[i] == docs[i]);
                assert(front[j] == docs[j]);
            }
        }
        lemma_assigned_by_position(front);
        let before = assigned_ids(front);
        let id = docs.last().id;
        assert forall|k: int| 0 <= k < turned(before).len() implies (#[trigger] turned(
            before,
        )[k]).0 != id by {
            assert(before[k].1 == front[k].id);
            assert(front[k] == docs[k]);
            assert(docs[k].id != docs[docs.len() - 1].id);
        }
        lemma_assoc_absent(turned(before), id);
        assert(assigned_ids(docs) =~= want);
    }
    lemma_assigned_ids(docs);
    let ids = assigned_ids(docs);
    assert forall|i: int| 0 <= i < docs.len() implies number_of(ids, docs[i].id) == i as u32 by {
        assert(turned(ids)[i] == (docs[i].id, i as u32));
        lemma_assoc_found(turned(ids), i);
    }
    assert(payload_entries_of(docs) =~= Seq::new(
        docs.len(),
        |i: int| (i as u32, docs[i].payload),
    ));
}

/// In entries numbered by position, the entry numbered `i` is found first.
pub proof fn lemma_first_external(es: Seq<(u32, Seq<char>)>, j: int, i: int)
    requires
        es.len() <= u32::MAX,
        forall|k: int| 0 <= k < es.len() ==> (#[trigger] es[k]).0 == k,
        0 <= j <= i < es.len(),
    ensures
        first_external(es.skip(j), i as u32) == Some(es[i].1),
    decreases i - j,
{
    assert(es.skip(j)[0] == es[j]);
    if j < i {
        assert(es.skip(j).drop_first() =~= es.skip(j + 1));
        lemma_first_external(es, j + 1, i);
    }
}

/// In entries with distinct ids, each id is found at its own entry.
pub proof fn lemma_first_internal(es: Seq<(u32, Seq<char>)>, j: int, i: int)
    requires
        forall|a: int, b: int| 0 <= a < b < es.len() ==> (#[trigger] es[a]).1 != (#[trigger] es[b]).1,
        0 <= j <= i < es.len(),
    ensures
        first_internal(es.skip(j), es[i].1) == Some(es[i].0),
    decreases i - j,
{
    assert(es.skip(j)[0] == es[j]);
    if j < i {
        assert(es[j].1 != es[i].1);
        assert(es.skip(j).drop_first() =~= es.skip(j + 1));
        lemma_first_internal(es, j + 1, i);
    }
}

/// In entries numbered by position, the payload numbered `i` is found first.
pub proof fn lemma_first_payload(es: Seq<(u32, Option<Seq<char>>)>, j: int, i: int)
    requires
        es.len() <= u32::MAX,
        forall|k: int| 0 <= k < es.len() ==> (#[trigger] es[k]).0 == k,
        0 <= j <= i < es.len(),
    ensures
        first_payload(es.skip(j), i as u32) == es[i].1,
    decreases i - j,
{
    assert(es.skip(j)[0] == es[j]);
    if j < i {
        assert(es.skip(j).drop_first() =~= es.skip(j + 1));
        lemma_first_payload(es, j + 1, i);
    }
}

/// The flat components of vectors of equal length: component `j` of
/// document `i` stands at `i * dim + j`.
pub proof fn lemma_flat_index(docs: Seq<DocumentView>, dim: nat, i: int, j: int)
    requires
        all_dimension(docs, dim),
        0 <= i < docs.len(),
        0 <= j < dim,
    ensures
        flat_vectors(docs).len() == docs.len() * dim,
        0 <= i * dim + j < flat_vectors(docs).len(),
        flat_vectors(docs)[i * dim + j] == docs[i].vector[j],
    decreases docs.len(),
{
    let front = docs.drop_last();
    let n = docs.len() as int;
    assert(all_dimension(front, dim)) by {
        assert forall|k: int| 0 <= k < front.len() implies (#[trigger] front[k]).vector.len()
            == dim by {
            assert(front[k] == docs[k]);
        }
    }
    lemma_flat_len(front, dim);
    assert(docs.last() == docs[n - 1]);
    assert((n - 1) * dim + dim == n * dim) by (nonlinear_arith);
    if i < n - 1 {
        lemma_flat_index(front, dim, i, j);
        assert(front[i] == docs[i]);
    } else {
    }
    assert(0 <= i * dim + j < n * dim) by (nonlinear_arith)
        requires
            0 <= i < n,
            0 <= j < dim,
    ;
}

/// The flat components of `n` vectors of `dim` components are `n * dim`.
pub proof fn lemma_flat_len(docs: Seq<DocumentView>, dim: nat)
    requires
        all_dimension(docs, dim),
    ensures
        flat_vectors(docs).len() == docs.len() * dim,
    decreases docs.len(),
{
    if docs.len() > 0 {
        let front = docs.drop_last();
        let n = docs.len() as int;
        assert(all_dimension(front, dim)) by {
            assert forall|k: int| 0 <= k < front.len() implies (#[trigger] front[k]).vector.len()
                == dim by {
                assert(front[k] == docs[k]);
            }
        }
        lemma_flat_len(front, dim);
        assert(docs.last() == docs[n - 1]);
        assert((n - 1) * dim + dim == n * dim) by (nonlinear_arith);
    } else {
        assert(0 * dim == 0) by (nonlinear_arith);
    }
}

/// The lengths of the three regions of a buildable segment, and where the
/// header says they start.
pub proof fn lemma_segment_layout(dim: u32, docs: Seq<DocumentView>)
    requires
        buildable(dim as nat, docs),
    ensures
        ({
            let file = segment_file(dim, docs);
            let v = words_le(flat_vectors(docs));
            let ids = id_region(assigned_ids(docs));
            &&& file.len() == 64 + segment_body(docs).len()
            &&& v.len() == 4 * (docs.len() * dim)
            &&& magic_ok(file)
            &&& version_ok(file)
            &&& file_checksum(file) == checksum_of(segment_body(docs))
            &&& file.skip(64) == segment_body(docs)
            &&& file_dimension(file) == dim
            &&& file_doc_count(file) == docs.len()
            &&& file_vector_offset(file) == 64
            &&& file_id_offset(file) == 64 + v.len()
            &&& file_payload_offset(file) == 64 + v.len() + ids.len()
            &&& layout_ok(file)
            &&& file_ids(file) == Some(assigned_ids(docs))
            &&& ids_ok(file)
        }),
{
    let v = words_le(flat_vectors(docs));
    let ids = id_region(assigned_ids(docs));
    let body = segment_body(docs);
    lemma_words_le_len(flat_vectors(docs));
    lemma_flat_len(docs, dim as nat);
    assert(magic().len() == 4);
    assert(body.len() >= v.len() + ids.len());
    assert(ids.len() >= 4 && payload_region(payload_entries_of(docs)).len() >= 4) by {
        lemma_auto_spec_u32_to_from_le_bytes();
    }
    assert(body.len() >= v.len() + ids.len() + 4);
    lemma_header_layout(
        magic(),
        1,
        dim,
        docs.len() as u64,
        64,
        (64 + v.len()) as u64,
        (64 + v.len() + ids.len()) as u64,
        checksum_of(body),
        body,
    );
    lemma_auto_spec_u32_to_from_le_bytes();
    let file = segment_file(dim, docs);
    let entries = assigned_ids(docs);
    let plr = payload_region(payload_entries_of(docs));
    let head = file.subrange(0, 64);
    lemma_assigned_by_position(docs);
    lemma_assigned_ids(docs);
    assert(file =~= head + v + ids + plr);
    assert(head.len() == 64);
    assert(file_ids(file) == Some(entries)) by {
        let off = 64 + v.len() as int;
        let count = spec_u32_to_le_bytes(entries.len() as u32);
        assert(file.subrange(off, off + 4) =~= count);
        assert forall|k: int| 0 <= k < entries.len() implies text_fits((#[trigger] entries[k]).1) by {
            assert(entries[k].1 == docs[k].id);
        }
        lemma_id_entries_round_trip(head + v + count, entries, plr);
        assert(head + v + count + id_entries_bytes(entries) + plr =~= file);
    }
    assert(ids_in_order(entries, file_doc_count(file))) by {
        assert forall|a: int, b: int| 0 <= a < b < entries.len() implies (#[trigger] entries[a]).1
            != (#[trigger] entries[b]).1 by {
            assert(entries[a].1 == docs[a].id);
            assert(entries[b].1 == docs[b].id);
        }
    }
}

/// Round trip. A segment file written for documents with distinct ids is
/// accepted, and reading document `i` back from it gives the vector, id
/// and payload of the `i`-th document, and its id leads back to `i`.
pub proof fn law_segment_round_trip(dim: u32, docs: Seq<DocumentView>, i: int)
    requires
        buildable(dim as nat, docs),
        distinct_ids(docs),
        0 <= i < docs.len(),
    ensures
        file_accepts(segment_file(dim, docs)),
        file_vector(segment_file(dim, docs), i as u32) == Some(docs[i].vector),
        file_external(segment_file(dim, docs), i as u32) == Some(docs[i].id),
        file_payload(segment_file(dim, docs), i as u32) == docs[i].payload,
        file_internal(segment_file(dim, docs), docs[i].id) == Some(i as u32),
{
    lemma_auto_spec_u32_to_from_le_bytes();
    let file = segment_file(dim, docs);
    let flat = flat_vectors(docs);
    let v = words_le(flat);
    let ids = assigned_ids(docs);
    let pls = payload_entries_of(docs);
    let idr = id_region(ids);
    let plr = payload_region(pls);
    let head = file.subrange(0, 64);
    let n = docs.len();
    lemma_segment_layout(dim, docs);
    lemma_assigned_by_position(docs);
    lemma_assigned_ids(docs);
    lemma_words_le_len(flat);
    lemma_flat_len(docs, dim as nat);
    assert(file =~= head + v + idr + plr);
    assert(head.len() == 64);
    // vectors
    assert(file_vector(file, i as u32) == Some(docs[i].vector)) by {
        let p = 64 + 4 * (i * dim);
        lemma_words_round_trip(head, flat, idr + plr);
        assert(head + v + (idr + plr) =~= file);
        let all_words = crate::codec::words_at(file, 64, flat.len());
        assert(all_words == flat);
        assert(i * dim + dim <= n * dim) by (nonlinear_arith)
            requires
                0 <= i < n,
        ;
        let got = crate::codec::words_at(file, p, dim as nat);
        assert forall|j: int| 0 <= j < dim implies got[j] == docs[i].vector[j] by {
            lemma_flat_index(docs, dim as nat, i, j);
            let k = i * dim + j;
            assert(all_words[k] == flat[k]);
            assert(p + 4 * j == 64 + 4 * k) by (nonlinear_arith)
                requires
                    p == 64 + 4 * (i * dim),
                    k == i * dim + j,
            ;
        }
        assert(docs[i].vector.len() == dim);
        assert(got =~= docs[i].vector);
    }
    // ids
    assert(file_ids(file) == Some(ids)) by {
        let off = 64 + v.len() as int;
        let count = spec_u32_to_le_bytes(ids.len() as u32);
        assert(file.subrange(off, off + 4) =~= count);
        assert forall|k: int| 0 <= k < ids.len() implies text_fits((#[trigger] ids[k]).1) by {
            assert(ids[k].1 == docs[k].id);
        }
        lemma_id_entries_round_trip(head + v + count, ids, plr);
        assert(head + v + count + id_entries_bytes(ids) + plr =~= file);
    }
    assert(ids.skip(0) =~= ids);
    lemma_first_external(ids, 0, i);
    assert forall|a: int, b: int| 0 <= a < b < ids.len() implies (#[trigger] ids[a]).1 != (
    #[trigger] ids[b]).1 by {
        assert(ids[a].1 == docs[a].id);
        assert(ids[b].1 == docs[b].id);
    }
    lemma_first_internal(ids, 0, i);
    // payloads
    assert(file_payloads(file) == Some(pls)) by {
        let off = 64 + v.len() as int + idr.len() as int;
        let count = spec_u32_to_le_bytes(pls.len() as u32);
        assert(file.subrange(off, off + 4) =~= count);
        assert forall|k: int| 0 <= k < pls.len() implies ((#[trigger] pls[k]).1 matches Some(t)
            ==> text_fits(t)) by {
            assert(pls[k].1 == docs[k].payload);
            assert(text_fits(docs[k].id));
        }
        lemma_payload_entries_round_trip(head + v + idr + count, pls, Seq::empty());
        assert(head + v + idr + count + payload_entries_bytes(pls) + Seq::<u8>::empty()
            =~= file);
    }
    assert(pls.skip(0) =~= pls);
    lemma_first_payload(pls, 0, i);
}

/// An id that no entry carries is not found.
pub proof fn lemma_first_internal_absent(es: Seq<(u32, Seq<char>)>, id: Seq<char>)
    requires
        forall|k: int| 0 <= k < es.len() ==> (#[trigger] es[k]).1 != id,
    ensures
        first_internal(es, id) is None,
    decreases es.len(),
{
    if es.len() > 0 {
        assert(es[0].1 != id);
        assert forall|k: int| 0 <= k < es.drop_first().len() implies (
        #[trigger] es.drop_first()[k]).1 != id by {
            assert(es.drop_first()[k] == es[k + 1]);
        }
        lemma_first_internal_absent(es.drop_first(), id);
    }
}

/// Reading back what is not there. A segment file written for documents
/// with distinct ids gives no number for an id that none of them has.
pub proof fn law_segment_absent(dim: u32, docs: Seq<DocumentView>, id: Seq<char>)
    requires
        buildable(dim as nat, docs),
        distinct_ids(docs),
        forall|k: int| 0 <= k < docs.len() ==> (#[trigger] docs[k]).id != id,
    ensures
        file_internal(segment_file(dim, docs), id) is None,
{
    lemma_auto_spec_u32_to_from_le_bytes();
    let file = segment_file(dim, docs);
    let flat = flat_vectors(docs);
    let v = words_le(flat);
    let ids = assigned_ids(docs);
    let pls = payload_entries_of(docs);
    let plr = payload_region(pls);
    let head = file.subrange(0, 64);
    lemma_segment_layout(dim, docs);
    lemma_assigned_by_position(docs);
    lemma_assigned_ids(docs);
    lemma_words_le_len(flat);
    lemma_flat_len(docs, dim as nat);
    assert(file =~= head + v + id_region(ids) + plr);
    assert(file_ids(file) == Some(ids)) by {
        let off = 64 + v.len() as int;
        let count = spec_u32_to_le_bytes(ids.len() as u32);
        assert(file.subrange(off, off + 4) =~= count);
        assert forall|k: int| 0 <= k < ids.len() implies text_fits((#[trigger] ids[k]).1) by {
            assert(ids[k].1 == docs[k].id);
        }
        lemma_id_entries_round_trip(head + v + count, ids, plr);
        assert(head + v + count + id_entries_bytes(ids) + plr =~= file);
    }
    assert forall|k: int| 0 <= k < ids.len() implies (#[trigger] ids[k]).1 != id by {
        assert(ids[k].1 == docs[k].id);
    }
    lemma_first_internal_absent(ids, id);
}

/// The rows numbered below `n` of a segment file written for documents
/// with distinct ids are the first `n` documents, each under its position.
pub proof fn lemma_built_rows(dim: u32, docs: Seq<DocumentView>, n: nat)
    requires
        buildable(dim as nat, docs),
        distinct_ids(docs),
        n <= docs.len(),
    ensures
        file_rows(segment_file(dim, docs), n) == Seq::new(n, |i: int| (i as u32, docs[i])),
    decreases n,
{
    let file = segment_file(dim, docs);
    let want = Seq::new(n, |i: int| (i as u32, docs[i]));
    if n == 0 {
        assert(file_rows(file, n) =~= want);
    } else {
        lemma_built_rows(dim, docs, (n - 1) as nat);
        law_segment_round_trip(dim, docs, n - 1);
        let d = docs[n - 1];
        assert(DocumentView { id: d.id, vector: d.vector, payload: d.payload } == d);
        assert(file_rows(file, n) =~= want);
    }
}

/// Reading all back. The documents of a segment file written for
/// documents with distinct ids are those documents, in order.
pub proof fn law_segment_documents(dim: u32, docs: Seq<DocumentView>)
    requires
        buildable(dim as nat, docs),
        distinct_ids(docs),
    ensures
        file_row_limit(segment_file(dim, docs)) == docs.len(),
        file_rows(segment_file(dim, docs), docs.len()) == Seq::new(
            docs.len(),
            |i: int| (i as u32, docs[i]),
        ),
{
    lemma_segment_layout(dim, docs);
    lemma_built_rows(dim, docs, docs.len());
}

/// The document numbered `i` of an accepted file, for `i` below the
/// document count: the id of entry `i`, with the vector and payload read
/// under that number.
pub open spec fn file_document(file: Seq<u8>, i: int) -> DocumentView {
    DocumentView {
        id: file_ids(file).unwrap()[i].1,
        vector: match file_vector(file, i as u32) {
            Some(v) => v,
            None => Seq::empty(),
        },
        payload: file_payload(file, i as u32),
    }
}

/// The rows numbered below `n` of an accepted file are its first `n`
/// documents, each under its position.
pub proof fn lemma_accepted_rows(file: Seq<u8>, n: nat)
    requires
        file_accepts(file),
        n <= file_doc_count(file),
    ensures
        file_rows(file, n) == Seq::new(n, |i: int| (i as u32, file_document(file, i))),
    decreases n,
{
    let want = Seq::new(n, |i: int| (i as u32, file_document(file, i)));
    if n == 0 {
        assert(file_rows(file, n) =~= want);
    } else {
        lemma_accepted_rows(file, (n - 1) as nat);
        let ids = file_ids(file).unwrap();
        let i = n - 1;
        let count = file_doc_count(file) as int;
        let dim = file_dimension(file) as int;
        assert(ids.skip(0) =~= ids);
        lemma_first_external(ids, 0, i);
        assert(i * dim + dim <= count * dim) by (nonlinear_arith)
            requires
                0 <= i < count,
                0 <= dim,
        ;
        assert(file_vector(file, i as u32) is Some);
        assert(file_rows(file, n) =~= want);
    }
}

/// Reading an accepted file. Its documents are one per number below the
/// document count, with distinct ids, and an id leads to the number of
/// the document that carries it, or to none if none does.
pub proof fn law_accepted_reads(file: Seq<u8>, id: Seq<char>)
    requires
        file_accepts(file),
    ensures
        file_row_limit(file) == file_doc_count(file),
        file_rows(file, file_row_limit(file)) == Seq::new(
            file_doc_count(file) as nat,
            |i: int| (i as u32, file_document(file, i)),
        ),
        forall|a: int, b: int|
            0 <= a < b < file_doc_count(file) ==> (#[trigger] file_document(file, a)).id != (
            #[trigger] file_document(file, b)).id,
        match file_internal(file, id) {
            Some(n) => n < file_doc_count(file) && file_document(file, n as int).id == id,
            None => forall|i: int|
                0 <= i < file_doc_count(file) ==> (#[trigger] file_document(file, i)).id != id,
        },
{
    let ids = file_ids(file).unwrap();
    lemma_accepted_rows(file, file_doc_count(file) as nat);
    assert(ids.skip(0) =~= ids);
    if exists|k: int| 0 <= k < ids.len() && (#[trigger] ids[k]).1 == id {
        let k = choose|k: int| 0 <= k < ids.len() && (#[trigger] ids[k]).1 == id;
        lemma_first_internal(ids, 0, k);
    } else {
        lemma_first_internal_absent(ids, id);
    }
}

/// Checksum. A file that keeps the header of an accepted file but whose
/// remaining bytes have another checksum is not accepted; its magic and
/// version still are, so opening it fails with a checksum mismatch.
pub proof fn law_checksum_detects_change(file: Seq<u8>, changed: Seq<u8>)
    requires
        file_accepts(file),
        changed.len() >= 64,
        changed.subrange(0, 64) == file.subrange(0, 64),
        checksum_of(changed.skip(64)) != checksum_of(file.skip(64)),
    ensures
        magic_ok(changed),
        version_ok(changed),
        !file_accepts(changed),
{
    let a = file.subrange(0, 64);
    let b = changed.subrange(0, 64);
    assert(changed.subrange(0, 4) =~= b.subrange(0, 4));
    assert(file.subrange(0, 4) =~= a.subrange(0, 4));
    assert(changed.subrange(4, 6) =~= b.subrange(4, 6));
    assert(file.subrange(4, 6) =~= a.subrange(4, 6));
    assert(changed.subrange(44, 52) =~= b.subrange(44, 52));
    assert(file.subrange(44, 52) =~= a.subrange(44, 52));
}

} // verus!
