//! The write-ahead log: framed, checksummed, sequence-numbered records.
//!
//! A record is a 17-byte prefix (sequence, length, CRC-32, opcode) followed by
//! an opcode-specific body. The log is the concatenation of its records. This
//! module encodes and decodes records, finds the valid prefix of a damaged
//! log, and replays a log into the operations it holds.

use vstd::prelude::*;
use vstd::bytes::*;
use vstd::utf8::*;
use vstd::string::*;
use crate::codec::{
    clone_text, get_text_field, lemma_payload_field_round_trip, lemma_text_field_round_trip,
    lemma_words_le_len, lemma_words_round_trip, parse_payload_field, parse_text_field,
    payload_field, put_bytes, put_text_field, put_u32, put_u64, put_u8, put_words, read_u8, read_words,
    spec_read_words, text_field, text_fits, text_of, words_le,
};
use crate::error::Error;
use crate::segment::Document;

verus! {

/// Name of the log file inside a collection directory.
pub const WAL_FILE_NAME: &'static str = "wal.log";

/// Log size, in bytes, beyond which the collection flushes (64 MiB).
pub const WAL_FLUSH_THRESHOLD: u64 = 67108864;

/// Largest estimated size, in bytes, of one batch of inserts (64 MiB).
pub const MAX_BATCH_SIZE: usize = 67108864;

/// Number of bytes in front of a record's body.
pub const RECORD_HEADER_SIZE: usize = 17;

/// The kind of operation a record holds.
#[derive(Debug, Clone, Copy, PartialEq, Eq, Structural)]
pub enum Opcode {
    /// Insert or replace a document.
    Insert,
    /// Delete a document.
    Delete,
}

impl Opcode {
    /// The byte that stands for this opcode in the log.
    pub open spec fn code(self) -> u8 {
        match self {
            Opcode::Insert => 1,
            Opcode::Delete => 2,
        }
    }

    /// The opcode that `value` stands for, if any.
    pub fn from_u8(value: u8) -> (r: Option<Opcode>)
        ensures
            r == (if value == 1 {
                Some(Opcode::Insert)
            } else if value == 2 {
                Some(Opcode::Delete)
            } else {
                None
            }),
            r matches Some(op) ==> op.code() == value,
    {
        if value == 1 {
            Some(Opcode::Insert)
        } else if value == 2 {
            Some(Opcode::Delete)
        } else {
            None
        }
    }

    /// The byte that stands for this opcode in the log.
    pub fn to_u8(self) -> (r: u8)
        ensures
            r == self.code(),
    {
        match self {
            Opcode::Insert => 1,
            Opcode::Delete => 2,
        }
    }
}

/// The 17 bytes in front of a record's body.
#[derive(Debug, Clone, Copy, PartialEq, Eq, Structural)]
pub struct RecordHeader {
    /// Sequence number of the record.
    pub seq: u64,
    /// Number of bytes after this field: checksum, opcode and body.
    pub len: u32,
    /// CRC-32 over sequence, opcode and body.
    pub crc32: u32,
    /// Operation code.
    pub opcode: u8,
}

/// The bytes of a record header.
pub open spec fn header_bytes(h: RecordHeader) -> Seq<u8> {
    spec_u64_to_le_bytes(h.seq) + spec_u32_to_le_bytes(h.len) + spec_u32_to_le_bytes(h.crc32)
        + seq![h.opcode]
}

/// The header that the first 17 bytes of `b` hold, if `b` is that long.
pub open spec fn header_at(b: Seq<u8>) -> Option<RecordHeader> {
    if b.len() >= 17 {
        Some(
            RecordHeader {
                seq: spec_u64_from_le_bytes(b.subrange(0, 8)),
                len: spec_u32_from_le_bytes(b.subrange(8, 12)),
                crc32: spec_u32_from_le_bytes(b.subrange(12, 16)),
                opcode: b[16],
            },
        )
    } else {
        None
    }
}

/// A header written and read back is unchanged, whatever follows it.
pub proof fn lemma_header_round_trip(h: RecordHeader, rest: Seq<u8>)
    ensures
        header_bytes(h).len() == 17,
        header_at(header_bytes(h) + rest) == Some(h),
{
    lemma_auto_spec_u32_to_from_le_bytes();
    lemma_auto_spec_u64_to_from_le_bytes();
    let b = header_bytes(h) + rest;
    assert(b.subrange(0, 8) =~= spec_u64_to_le_bytes(h.seq));
    assert(b.subrange(8, 12) =~= spec_u32_to_le_bytes(h.len));
    assert(b.subrange(12, 16) =~= spec_u32_to_le_bytes(h.crc32));
    assert(b[16] == h.opcode);
}

impl RecordHeader {
    /// Size of a header in bytes.
    pub const SIZE: usize = 17;

    /// The 17 bytes of this header.
    pub fn to_bytes(&self) -> (out: Vec<u8>)
        ensures
            out@ == header_bytes(*self),
            out@.len() == 17,
    {
        let mut out: Vec<u8> = Vec::new();
        put_u64(&mut out, self.seq);
        put_u32(&mut out, self.len);
        put_u32(&mut out, self.crc32);
        put_u8(&mut out, self.opcode);
        proof {
            lemma_header_round_trip(*self, Seq::empty());
            assert(out@ =~= header_bytes(*self));
        }
        out
    }

    /// Reads a header from the front of `bytes`; fails when fewer than 17
    /// bytes are given.
    pub fn from_bytes(bytes: &[u8]) -> (r: Result<RecordHeader, Error>)
        ensures
            match header_at(bytes@) {
                Some(h) => r == Ok::<RecordHeader, Error>(h),
                None => r matches Err(Error::WalError { .. }),
            },
    {
        if bytes.len() < 17 {
            return Err(
                Error::WalError { seq: 0, message: "record header is cut short".to_owned() },
            );
        }
        let seq = u64_from_le_bytes(vstd::slice::slice_subrange(bytes, 0, 8));
        let len = u32_from_le_bytes(vstd::slice::slice_subrange(bytes, 8, 12));
        let crc32 = u32_from_le_bytes(vstd::slice::slice_subrange(bytes, 12, 16));
        let opcode = bytes[16];
        Ok(RecordHeader { seq, len, crc32, opcode })
    }
}

/// Body of an insert record.
#[derive(Debug, Clone)]
pub struct InsertBody {
    /// External document id.
    pub id: String,
    /// The vector, one IEEE-754 single-precision bit pattern per component.
    pub vector: Vec<u32>,
    /// JSON text of the payload, if the document has one.
    pub payload: Option<String>,
}

/// Body of a delete record.
#[derive(Debug, Clone)]
pub struct DeleteBody {
    /// External id of the document to delete.
    pub id: String,
}

/// One operation held by the log.
#[derive(Debug, Clone)]
pub enum Record {
    /// Insert or replace a document.
    Insert(InsertBody),
    /// Delete a document.
    Delete(DeleteBody),
}

/// What a record says, as mathematical values.
pub enum RecordView {
    /// Insert or replace document `id`.
    Insert { id: Seq<char>, vector: Seq<u32>, payload: Option<Seq<char>> },
    /// Delete document `id`.
    Delete { id: Seq<char> },
}

impl View for InsertBody {
    type V = RecordView;

    open spec fn view(&self) -> RecordView {
        RecordView::Insert { id: self.id@, vector: self.vector@, payload: text_of(self.payload) }
    }
}

impl View for DeleteBody {
    type V = RecordView;

    open spec fn view(&self) -> RecordView {
        RecordView::Delete { id: self.id@ }
    }
}

impl View for Record {
    type V = RecordView;

    open spec fn view(&self) -> RecordView {
        match self {
            Record::Insert(b) => b@,
            Record::Delete(b) => b@,
        }
    }
}

/// The body of a record.
pub open spec fn body_bytes(r: RecordView) -> Seq<u8> {
    match r {
        RecordView::Insert { id, vector, payload } => text_field(id) + words_le(vector)
            + payload_field(payload),
        RecordView::Delete { id } => text_field(id),
    }
}

/// The opcode byte of a record.
pub open spec fn opcode_of(r: RecordView) -> u8 {
    match r {
        RecordView::Insert { .. } => 1,
        RecordView::Delete { .. } => 2,
    }
}

/// Whether every length inside the body of `r` fits its `u32` prefix.
pub open spec fn fields_fit(r: RecordView) -> bool {
    match r {
        RecordView::Insert { id, vector, payload } => text_fits(id) && (payload matches Some(p)
            ==> text_fits(p)),
        RecordView::Delete { id } => text_fits(id),
    }
}

/// Number of components of the vector of an insert; 0 for a delete.
pub open spec fn vector_len(r: RecordView) -> nat {
    match r {
        RecordView::Insert { vector, .. } => vector.len(),
        RecordView::Delete { .. } => 0,
    }
}

/// Whether `r` is an insert whose vector does not have `dim` components.
pub open spec fn wrong_dimension(r: RecordView, dim: nat) -> bool {
    r matches RecordView::Insert { vector, .. } && vector.len() != dim
}

/// Whether `r` can be written as a record for a collection of dimension
/// `dim`: the vector has `dim` components and every length fits its field.
pub open spec fn encodable(r: RecordView, dim: nat) -> bool {
    &&& !wrong_dimension(r, dim)
    &&& fields_fit(r)
    &&& body_bytes(r).len() + 5 <= u32::MAX
}

/// What an insert body of dimension `dim` says, if it is well-formed.
/// Bytes behind the last field are ignored.
pub open spec fn parse_insert_body(b: Seq<u8>, dim: nat) -> Option<RecordView> {
    match parse_text_field(b, 0) {
        Some(idp) => match spec_read_words(b, idp.1, dim) {
            Some(vector) => match parse_payload_field(b, idp.1 + 4 * dim) {
                Some(payload) => Some(RecordView::Insert { id: idp.0, vector, payload }),
                None => None,
            },
            None => None,
        },
        None => None,
    }
}

/// What a delete body says, if it is well-formed.
pub open spec fn parse_delete_body(b: Seq<u8>) -> Option<RecordView> {
    match parse_text_field(b, 0) {
        Some(idp) => Some(RecordView::Delete { id: idp.0 }),
        None => None,
    }
}

/// What a body says under a given opcode byte.
pub open spec fn parse_body(opcode: u8, b: Seq<u8>, dim: nat) -> Option<RecordView> {
    if opcode == 1 {
        parse_insert_body(b, dim)
    } else if opcode == 2 {
        parse_delete_body(b)
    } else {
        None
    }
}

/// Decoding the body of an encodable record gives the record back.
pub proof fn lemma_body_round_trip(r: RecordView, dim: nat)
    requires
        encodable(r, dim),
    ensures
        parse_body(opcode_of(r), body_bytes(r), dim) == Some(r),
{
    match r {
        RecordView::Insert { id, vector, payload } => {
            let b = body_bytes(r);
            let tail = words_le(vector) + payload_field(payload);
            lemma_text_field_round_trip(Seq::empty(), id, tail);
            assert(Seq::<u8>::empty() + text_field(id) + tail =~= b);
            let after_id = text_field(id).len() as int;
            lemma_words_le_len(vector);
            lemma_words_round_trip(text_field(id), vector, payload_field(payload));
            lemma_payload_field_round_trip(text_field(id) + words_le(vector), payload, Seq::empty());
            assert(text_field(id) + words_le(vector) + payload_field(payload) + Seq::<u8>::empty()
                =~= b);
        },
        RecordView::Delete { id } => {
            lemma_text_field_round_trip(Seq::empty(), id, Seq::empty());
            assert(Seq::<u8>::empty() + text_field(id) + Seq::<u8>::empty() =~= body_bytes(r));
        },
    }
}

impl InsertBody {
    /// Encodes the body for a collection of dimension `dim`.
    ///
    /// Fails with `WrongDimension` when the vector does not have `dim`
    /// components, and with `Serialization` when a text is too long for its
    /// length prefix.
    pub fn serialize(&self, dim: usize) -> (r: Result<Vec<u8>, Error>)
        ensures
            wrong_dimension(self@, dim as nat) ==> (r matches Err(
                Error::WrongDimension { expected, got },
            ) && expected == dim && got == self.vector@.len()),
            !wrong_dimension(self@, dim as nat) && !fields_fit(self@) ==> r matches Err(
                Error::Serialization(_),
            ),
            !wrong_dimension(self@, dim as nat) && fields_fit(self@) ==> (r matches Ok(out)
                && out@ == body_bytes(self@)),
    {
        if self.vector.len() != dim {
            return Err(Error::WrongDimension { expected: dim, got: self.vector.len() });
        }
        let mut buf: Vec<u8> = Vec::new();
        if !put_text_field(&mut buf, &self.id) {
            return Err(Error::Serialization("id is too long".to_owned()));
        }
        put_words(&mut buf, &self.vector);
        match &self.payload {
            Some(p) => {
                put_u8(&mut buf, 1);
                if !put_text_field(&mut buf, p) {
                    return Err(Error::Serialization("payload is too long".to_owned()));
                }
            },
            None => {
                put_u8(&mut buf, 0);
            },
        }
        assert(buf@ =~= body_bytes(self@));
        Ok(buf)
    }

    /// Decodes a body for a collection of dimension `dim`.
    pub fn deserialize(data: &[u8], dim: usize) -> (r: Result<InsertBody, Error>)
        ensures
            match parse_insert_body(data@, dim as nat) {
                Some(v) => r matches Ok(body) && body@ == v,
                None => r matches Err(Error::Serialization(_)),
            },
    {
        let (id, after_id) = match get_text_field(data, 0) {
            Some(tp) => tp,
            None => { return Err(Error::Serialization("failed to read id".to_owned())); },
        };
        let total = data.len();
        let vector = match read_words(data, after_id, dim) {
            Some(v) => v,
            None => { return Err(Error::Serialization("failed to read vector".to_owned())); },
        };
        let after_vector: usize = after_id + 4 * dim;
        let flag = match read_u8(data, after_vector) {
            Some(f) => f,
            None => {
                return Err(Error::Serialization("failed to read has_payload".to_owned()));
            },
        };
        let payload = if flag != 0 {
            match get_text_field(data, after_vector + 1) {
                Some(tp) => Some(tp.0),
                None => {
                    return Err(Error::Serialization("failed to read payload".to_owned()));
                },
            }
        } else {
            None
        };
        Ok(InsertBody { id, vector, payload })
    }
}

impl DeleteBody {
    /// Encodes the body; fails with `Serialization` when the id is too long
    /// for its length prefix.
    pub fn serialize(&self) -> (r: Result<Vec<u8>, Error>)
        ensures
            fields_fit(self@) ==> (r matches Ok(out) && out@ == body_bytes(self@)),
            !fields_fit(self@) ==> r matches Err(Error::Serialization(_)),
    {
        let mut buf: Vec<u8> = Vec::new();
        if !put_text_field(&mut buf, &self.id) {
            return Err(Error::Serialization("id is too long".to_owned()));
        }
        assert(buf@ =~= body_bytes(self@));
        Ok(buf)
    }

    /// Decodes a body.
    pub fn deserialize(data: &[u8]) -> (r: Result<DeleteBody, Error>)
        ensures
            match parse_delete_body(data@) {
                Some(v) => r matches Ok(body) && body@ == v,
                None => r matches Err(Error::Serialization(_)),
            },
    {
        match get_text_field(data, 0) {
            Some(tp) => Ok(DeleteBody { id: tp.0 }),
            None => Err(Error::Serialization("failed to read id".to_owned())),
        }
    }
}

/// The CRC-32 (IEEE) checksum of a byte string.
pub uninterp spec fn crc32_of(data: Seq<u8>) -> u32;

/// `crc32fast::hash`: the CRC-32 checksum of `data`.
#[verifier::external_body]
pub(crate) fn crc32(data: &[u8]) -> (r: u32)
    ensures
        r == crc32_of(data@),
{
    crc32fast::hash(data)
}

/// The bytes a record's checksum covers: sequence, opcode, body.
pub open spec fn checksum_input(seq: u64, opcode: u8, body: Seq<u8>) -> Seq<u8> {
    spec_u64_to_le_bytes(seq) + seq![opcode] + body
}

/// The header that goes in front of `body`.
pub open spec fn header_for(seq: u64, opcode: u8, body: Seq<u8>) -> RecordHeader {
    RecordHeader {
        seq,
        len: (5 + body.len()) as u32,
        crc32: crc32_of(checksum_input(seq, opcode, body)),
        opcode,
    }
}

/// A framed record: header, then body.
pub open spec fn frame(seq: u64, opcode: u8, body: Seq<u8>) -> Seq<u8> {
    header_bytes(header_for(seq, opcode, body)) + body
}

/// The bytes of record `r` under sequence number `seq`.
pub open spec fn record_bytes(seq: u64, r: RecordView) -> Seq<u8> {
    frame(seq, opcode_of(r), body_bytes(r))
}

/// The checksum of a record with the given sequence, opcode and body.
fn record_crc(seq: u64, opcode: u8, body: &[u8]) -> (r: u32)
    ensures
        r == crc32_of(checksum_input(seq, opcode, body@)),
{
    let mut buf: Vec<u8> = Vec::new();
    put_u64(&mut buf, seq);
    put_u8(&mut buf, opcode);
    put_bytes(&mut buf, body);
    assert(buf@ =~= checksum_input(seq, opcode, body@));
    crc32(buf.as_slice())
}

impl Record {
    /// The opcode of this record.
    pub fn opcode(&self) -> (r: Opcode)
        ensures
            r.code() == opcode_of(self@),
            r == Opcode::Insert <==> self is Insert,
    {
        match self {
            Record::Insert(_) => Opcode::Insert,
            Record::Delete(_) => Opcode::Delete,
        }
    }

    /// Encodes the record under sequence number `seq` for a collection of
    /// dimension `dim`.
    ///
    /// Succeeds exactly on encodable records. An insert whose vector does not
    /// have `dim` components gives `WrongDimension`; a length that does not
    /// fit its field gives `Serialization`.
    pub fn serialize(&self, seq: u64, dim: usize) -> (r: Result<Vec<u8>, Error>)
        ensures
            encodable(self@, dim as nat) ==> (r matches Ok(out) && out@ == record_bytes(
                seq,
                self@,
            )),
            wrong_dimension(self@, dim as nat) ==> (r matches Err(
                Error::WrongDimension { expected, got },
            ) && expected == dim && got == vector_len(self@)),
            !wrong_dimension(self@, dim as nat) && !encodable(self@, dim as nat) ==> r matches Err(
                Error::Serialization(_),
            ),
    {
        let body = match self {
            Record::Insert(b) => b.serialize(dim),
            Record::Delete(b) => b.serialize(),
        };
        let body = match body {
            Ok(b) => b,
            Err(e) => { return Err(e); },
        };
        if body.len() > 0xFFFF_FFFA {
            return Err(Error::Serialization("record is too long".to_owned()));
        }
        let opcode = self.opcode().to_u8();
        let len: u32 = (5 + body.len()) as u32;
        let crc = record_crc(seq, opcode, body.as_slice());
        let header = RecordHeader { seq, len, crc32: crc, opcode };
        let mut buf = header.to_bytes();
        put_bytes(&mut buf, body.as_slice());
        Ok(buf)
    }
}

/// The body that follows a header at the front of `b`, if the header's
/// length field is at least 5 and `b` holds all of the body.
pub open spec fn body_at(b: Seq<u8>, h: RecordHeader) -> Option<Seq<u8>> {
    if h.len >= 5 && 12 + h.len <= b.len() {
        Some(b.subrange(17, 12 + h.len))
    } else {
        None
    }
}

/// Whether the checksum in `h` is that of `body`, and the opcode is known.
pub open spec fn frame_intact(h: RecordHeader, body: Seq<u8>) -> bool {
    crc32_of(checksum_input(h.seq, h.opcode, body)) == h.crc32 && (h.opcode == 1 || h.opcode
        == 2)
}

/// Whether a record numbered `seq` may come after the last accepted one,
/// numbered `prev` (0: none accepted yet).
pub open spec fn follows(prev: u64, seq: u64) -> bool {
    prev == 0 || seq == prev + 1
}

/// The valid prefix of a log: its length in bytes and the sequence number
/// of its last record (`max_seq` when it holds none).
///
/// Records are accepted from the front for as long as each one is complete,
/// follows its predecessor, carries the right checksum and a known opcode.
pub open spec fn scan_spec(b: Seq<u8>, max_seq: u64) -> (int, u64)
    decreases b.len(),
{
    match header_at(b) {
        None => (0, max_seq),
        Some(h) => if !follows(max_seq, h.seq) {
            (0, max_seq)
        } else {
            match body_at(b, h) {
                None => (0, max_seq),
                Some(body) => if !frame_intact(h, body) {
                    (0, max_seq)
                } else {
                    let rest = scan_spec(b.skip(12 + h.len), h.seq);
                    (12 + h.len + rest.0, rest.1)
                },
            }
        },
    }
}

/// What a scan of a log found.
#[derive(Debug, Clone, Copy, PartialEq, Eq, Structural)]
pub struct LogScan {
    /// Number of bytes, from the front, that hold valid records.
    pub valid_len: usize,
    /// Sequence number of the last valid record, 0 when there is none.
    pub max_seq: u64,
}

/// The record at the front of `rest`: its header and body length, when the
/// record is complete, follows `prev`, and is intact.
fn front_record(rest: &[u8], prev: u64) -> (r: Option<(RecordHeader, usize)>)
    ensures
        match r {
            Some(hn) => header_at(rest@) == Some(hn.0) && follows(prev, hn.0.seq) && body_at(
                rest@,
                hn.0,
            ) is Some && frame_intact(hn.0, body_at(rest@, hn.0)->0) && hn.1 == hn.0.len - 5
                && 17 + hn.1 <= rest@.len(),
            None => header_at(rest@) matches Some(h) ==> !follows(prev, h.seq) || body_at(
                rest@,
                h,
            ) is None || !frame_intact(h, body_at(rest@, h)->0),
        },
{
    let h = match RecordHeader::from_bytes(rest) {
        Ok(h) => h,
        Err(_) => { return None; },
    };
    if prev != 0 && (prev == u64::MAX || h.seq != prev + 1) {
        return None;
    }
    if h.len < 5 {
        return None;
    }
    let body_len = (h.len - 5) as usize;
    if rest.len() - 17 < body_len {
        return None;
    }
    let body = vstd::slice::slice_subrange(rest, 17, 17 + body_len);
    let crc = record_crc(h.seq, h.opcode, body);
    if crc != h.crc32 {
        return None;
    }
    if Opcode::from_u8(h.opcode).is_none() {
        return None;
    }
    Some((h, body_len))
}

/// Finds the valid prefix of a log.
pub fn scan_records(data: &[u8]) -> (r: LogScan)
    ensures
        (r.valid_len as int, r.max_seq) == scan_spec(data@, 0),
        r.valid_len <= data@.len(),
{
    let mut pos: usize = 0;
    let mut max_seq: u64 = 0;
    assert(data@.skip(0) =~= data@);
    loop
        invariant
            pos <= data@.len(),
            scan_spec(data@, 0) == (
                pos + scan_spec(data@.skip(pos as int), max_seq).0,
                scan_spec(data@.skip(pos as int), max_seq).1,
            ),
        ensures
            pos <= data@.len(),
            scan_spec(data@, 0) == (pos as int, max_seq),
        decreases data@.len() - pos,
    {
        let rest = vstd::slice::slice_subrange(data, pos, data.len());
        assert(rest@ =~= data@.skip(pos as int));
        match front_record(rest, max_seq) {
            None => {
                break ;
            },
            Some(hn) => {
                let step: usize = 17 + hn.1;
                assert(data@.skip(pos as int).skip(step as int) =~= data@.skip(pos + step));
                pos = pos + step;
                max_seq = hn.0.seq;
            },
        }
    }
    LogScan { valid_len: pos, max_seq }
}

/// What a replay of a log yields.
pub struct ReplayView {
    /// The records handed out, each with its sequence number, in log order.
    pub records: Seq<(u64, RecordView)>,
    /// Sequence number of the last record passed, applied or skipped.
    pub last_applied: u64,
    /// Offset to which the log is to be cut back, if a damaged record was met.
    pub cut: Option<int>,
    /// Whether an intact record could not be decoded; the replay then fails.
    pub failed: bool,
}

/// A replay that ends without handing out anything more.
pub open spec fn replay_stop(last: u64) -> ReplayView {
    ReplayView { records: Seq::empty(), last_applied: last, cut: None, failed: false }
}

/// A replay that ends at a damaged record at offset 0.
pub open spec fn replay_cut(last: u64) -> ReplayView {
    ReplayView { records: Seq::empty(), last_applied: last, cut: Some(0int), failed: false }
}

/// A replay that fails on an intact record that cannot be decoded.
pub open spec fn replay_fail(last: u64) -> ReplayView {
    ReplayView { records: Seq::empty(), last_applied: last, cut: None, failed: true }
}

/// `rest`, moved `n` bytes further into the log.
pub open spec fn replay_shift(n: int, rest: ReplayView) -> ReplayView {
    ReplayView {
        records: rest.records,
        last_applied: rest.last_applied,
        cut: match rest.cut {
            Some(c) => Some(n + c),
            None => None,
        },
        failed: rest.failed,
    }
}

/// `rest`, with records `front` handed out before it.
pub open spec fn replay_after(front: Seq<(u64, RecordView)>, rest: ReplayView) -> ReplayView {
    ReplayView {
        records: front + rest.records,
        last_applied: rest.last_applied,
        cut: rest.cut,
        failed: rest.failed,
    }
}

/// Replays the log `b` from sequence number `start_seq`, after a record
/// numbered `last` (0: none).
///
/// A record numbered below `start_seq` is passed over by its length field
/// alone. From `start_seq` on, a record that does not follow its predecessor
/// ends the replay; one that is incomplete, fails its checksum or carries an
/// unknown opcode ends it and marks the log to be cut there; an intact one
/// is decoded and handed out, or fails the replay if it cannot be decoded.
pub open spec fn replay_spec(b: Seq<u8>, last: u64, start_seq: u64, dim: nat) -> ReplayView
    decreases b.len(),
{
    match header_at(b) {
        None => replay_stop(last),
        Some(h) => if h.seq < start_seq {
            if h.len < 5 || 12 + h.len > b.len() {
                replay_stop(h.seq)
            } else {
                replay_shift(12 + h.len, replay_spec(b.skip(12 + h.len), h.seq, start_seq, dim))
            }
        } else if !follows(last, h.seq) {
            replay_stop(last)
        } else {
            match body_at(b, h) {
                None => replay_cut(last),
                Some(body) => if !frame_intact(h, body) {
                    replay_cut(last)
                } else {
                    match parse_body(h.opcode, body, dim) {
                        None => replay_fail(last),
                        Some(r) => replay_after(
                            seq![(h.seq, r)],
                            replay_shift(
                                12 + h.len,
                                replay_spec(b.skip(12 + h.len), h.seq, start_seq, dim),
                            ),
                        ),
                    }
                },
            }
        },
    }
}

/// The records of a replay as mathematical values.
pub open spec fn replayed_view(v: Seq<(u64, Record)>) -> Seq<(u64, RecordView)> {
    Seq::new(v.len(), |i: int| (v[i].0, v[i].1@))
}

/// The result of replaying a log.
#[derive(Debug)]
pub struct Replay {
    /// The records to apply, each with its sequence number, in log order.
    pub records: Vec<(u64, Record)>,
    /// Sequence number of the last record passed, applied or skipped.
    pub last_applied: u64,
    /// Length to cut the log back to, if a damaged record was met.
    pub cut: Option<usize>,
}

impl View for Replay {
    type V = ReplayView;

    open spec fn view(&self) -> ReplayView {
        ReplayView {
            records: replayed_view(self.records@),
            last_applied: self.last_applied,
            cut: match self.cut {
                Some(c) => Some(c as int),
                None => None,
            },
            failed: false,
        }
    }
}

/// Decodes the body of an intact record.
fn decode_body(opcode: u8, body: &[u8], dim: usize) -> (r: Result<Record, Error>)
    requires
        opcode == 1 || opcode == 2,
    ensures
        match parse_body(opcode, body@, dim as nat) {
            Some(v) => r matches Ok(rec) && rec@ == v,
            None => r matches Err(Error::Serialization(_)),
        },
{
    if opcode == 1 {
        match InsertBody::deserialize(body, dim) {
            Ok(b) => Ok(Record::Insert(b)),
            Err(e) => Err(e),
        }
    } else {
        match DeleteBody::deserialize(body) {
            Ok(b) => Ok(Record::Delete(b)),
            Err(e) => Err(e),
        }
    }
}

/// Replays the log held in `data` from sequence number `start_seq`, for a
/// collection of dimension `dim`.
///
/// Fails with `Serialization` exactly when an intact record from
/// `start_seq` on cannot be decoded.
pub fn replay_records(data: &[u8], start_seq: u64, dim: usize) -> (r: Result<Replay, Error>)
    ensures
        ({
            let v = replay_spec(data@, 0, start_seq, dim as nat);
            if v.failed {
                r matches Err(Error::Serialization(_))
            } else {
                r matches Ok(out) && out@ == v && (out.cut matches Some(c) ==> c <= data@.len())
            }
        }),
{
    let ghost total = replay_spec(data@, 0, start_seq, dim as nat);
    let mut records: Vec<(u64, Record)> = Vec::new();
    let mut pos: usize = 0;
    let mut last: u64 = 0;
    let mut cut: Option<usize> = None;
    assert(data@.skip(0) =~= data@);
    assert(replayed_view(records@) + total.records =~= total.records);
    loop
        invariant_except_break
            pos <= data@.len(),
            cut is None,
            total == replay_spec(data@, 0, start_seq, dim as nat),
            total == replay_after(
                replayed_view(records@),
                replay_shift(
                    pos as int,
                    replay_spec(data@.skip(pos as int), last, start_seq, dim as nat),
                ),
            ),
        ensures
            !total.failed,
            total.records == replayed_view(records@),
            total.last_applied == last,
            total.cut == (match cut {
                Some(c) => Some(c as int),
                None => None,
            }),
            cut matches Some(c) ==> c <= data@.len(),
        decreases data@.len() - pos,
    {
        let rest = vstd::slice::slice_subrange(data, pos, data.len());
        assert(rest@ =~= data@.skip(pos as int));
        let ghost here = replay_spec(rest@, last, start_seq, dim as nat);
        let h = match RecordHeader::from_bytes(rest) {
            Ok(h) => h,
            Err(_) => {
                assert(replayed_view(records@) + here.records =~= replayed_view(records@));
                break ;
            },
        };
        if h.seq < start_seq {
            if h.len < 5 || rest.len() - 12 < h.len as usize {
                last = h.seq;
                assert(replayed_view(records@) + here.records =~= replayed_view(records@));
                break ;
            }
            let step: usize = 12 + h.len as usize;
            assert(data@.skip(pos as int).skip(step as int) =~= data@.skip(pos + step));
            pos = pos + step;
            last = h.seq;
            continue ;
        }
        if last != 0 && (last == u64::MAX || h.seq != last + 1) {
            assert(replayed_view(records@) + here.records =~= replayed_view(records@));
            break ;
        }
        if h.len < 5 || rest.len() - 12 < h.len as usize {
            cut = Some(pos);
            assert(replayed_view(records@) + here.records =~= replayed_view(records@));
            break ;
        }
        let step: usize = 12 + h.len as usize;
        let body = vstd::slice::slice_subrange(rest, 17, step);
        let crc = record_crc(h.seq, h.opcode, body);
        if crc != h.crc32 || Opcode::from_u8(h.opcode).is_none() {
            cut = Some(pos);
            assert(replayed_view(records@) + here.records =~= replayed_view(records@));
            break ;
        }
        let record = match decode_body(h.opcode, body, dim) {
            Ok(rec) => rec,
            Err(e) => {
                return Err(e);
            },
        };
        proof {
            let ghost next = replay_spec(rest@.skip(step as int), h.seq, start_seq, dim as nat);
            assert(data@.skip(pos as int).skip(step as int) =~= data@.skip(pos + step));
            assert(replayed_view(records@.push((h.seq, record))) =~= replayed_view(records@)
                + seq![(h.seq, record@)]);
            assert((replayed_view(records@) + seq![(h.seq, record@)]) + next.records
                =~= replayed_view(records@) + (seq![(h.seq, record@)] + next.records));
        }
        records.push((h.seq, record));
        pos = pos + step;
        last = h.seq;
    }
    Ok(Replay { records, last_applied: last, cut })
}

/// The log `b` after a replay that asked for the cut `cut`.
pub open spec fn apply_cut(b: Seq<u8>, cut: Option<int>) -> Seq<u8> {
    match cut {
        Some(c) => b.take(c),
        None => b,
    }
}

/// The write-ahead log of one collection, held as the bytes of its file.
#[derive(Debug)]
pub struct Wal {
    log: Vec<u8>,
    next_seq: u64,
}

impl Wal {
    /// The bytes of the log.
    pub closed spec fn log(&self) -> Seq<u8> {
        self.log@
    }

    /// The sequence number that the next appended record gets.
    pub closed spec fn upcoming(&self) -> u64 {
        self.next_seq
    }

    /// Opens a log from the bytes of its file, keeping the valid prefix.
    ///
    /// The next sequence number is one past that of the last valid record.
    /// Fails only when that number cannot be represented.
    pub fn open(bytes: Vec<u8>, last_seq: Option<u64>) -> (r: Result<Wal, Error>)
        ensures
            ({
                let s = scan_spec(bytes@, 0);
                if s.1 == u64::MAX {
                    r matches Err(Error::WalError { .. })
                } else {
                    r matches Ok(w) && w.log() == bytes@.take(s.0) && w.upcoming() == s.1 + 1
                }
            }),
    {
        let scan = scan_records(bytes.as_slice());
        if scan.max_seq == u64::MAX {
            return Err(
                Error::WalError {
                    seq: scan.max_seq,
                    message: "sequence numbers are used up".to_owned(),
                },
            );
        }
        let mut log = bytes;
        log.truncate(scan.valid_len);
        Ok(Wal { log, next_seq: scan.max_seq + 1 })
    }

    /// A new, empty log. Sequence numbers start at 1.
    pub fn create() -> (w: Wal)
        ensures
            w.log() == Seq::<u8>::empty(),
            w.upcoming() == 1,
    {
        Wal { log: Vec::new(), next_seq: 1 }
    }

    /// The sequence number that the next appended record gets.
    pub fn next_seq(&self) -> (r: u64)
        ensures
            r == self.upcoming(),
    {
        self.next_seq
    }

    /// The size of the log in bytes.
    pub fn file_size(&self) -> (r: u64)
        ensures
            r == self.log().len(),
    {
        self.log.len() as u64
    }

    /// The bytes of the log.
    pub fn as_bytes(&self) -> (r: &[u8])
        ensures
            r@ == self.log(),
    {
        self.log.as_slice()
    }

    /// Whether `next` is this log after `record` was appended with the
    /// sequence number `seq`: the number is the one that was next, the
    /// next one is one higher, and the record stands behind the others.
    pub open spec fn appended(&self, next: &Wal, record: RecordView, seq: u64) -> bool {
        &&& seq == self.upcoming()
        &&& next.upcoming() == seq + 1
        &&& next.log() == self.log() + record_bytes(seq, record)
    }

    /// Appends `record` under the next sequence number and returns that
    /// number; the next one is then one higher.
    ///
    /// Fails, leaving the log as it was, when the record is not encodable
    /// for dimension `dim` (see [`Record::serialize`]) or when sequence
    /// numbers are used up.
    pub fn append(&mut self, record: &Record, dim: usize) -> (r: Result<u64, Error>)
        ensures
            r matches Ok(seq) ==> old(self).appended(final(self), record@, seq),
            encodable(record@, dim as nat) && old(self).upcoming() < u64::MAX ==> ({
                &&& r matches Ok(seq)
                &&& seq == old(self).upcoming()
                &&& final(self).upcoming() == seq + 1
                &&& final(self).log() == old(self).log() + record_bytes(seq, record@)
            }),
            !(encodable(record@, dim as nat) && old(self).upcoming() < u64::MAX) ==> ({
                &&& r is Err
                &&& final(self).log() == old(self).log()
                &&& final(self).upcoming() == old(self).upcoming()
            }),
            wrong_dimension(record@, dim as nat) ==> (r matches Err(
                Error::WrongDimension { expected, got },
            ) && expected == dim && got == vector_len(record@)),
            !wrong_dimension(record@, dim as nat) ==> r is Ok || r matches Err(
                Error::Serialization(_),
            ) || r matches Err(Error::WalError { .. }),
    {
        let seq = self.next_seq;
        let data = match record.serialize(seq, dim) {
            Ok(d) => d,
            Err(e) => { return Err(e); },
        };
        if seq == u64::MAX {
            return Err(
                Error::WalError { seq, message: "sequence numbers are used up".to_owned() },
            );
        }
        put_bytes(&mut self.log, data.as_slice());
        self.next_seq = seq + 1;
        Ok(seq)
    }

    /// Replays the log from `start_seq` for a collection of dimension `dim`
    /// (see [`replay_spec`]), cuts the log back where the replay asks for
    /// it, and sets the next sequence number to one past the last record
    /// passed.
    ///
    /// Fails, leaving the log as it was, when an intact record cannot be
    /// decoded, or when the next sequence number cannot be represented.
    pub fn replay(&mut self, start_seq: u64, dim: usize) -> (r: Result<Replay, Error>)
        ensures
            ({
                let v = replay_spec(old(self).log(), 0, start_seq, dim as nat);
                if v.failed {
                    &&& r matches Err(Error::Serialization(_))
                    &&& final(self).log() == old(self).log()
                    &&& final(self).upcoming() == old(self).upcoming()
                } else if v.last_applied == u64::MAX {
                    &&& r matches Err(Error::WalError { .. })
                    &&& final(self).log() == old(self).log()
                    &&& final(self).upcoming() == old(self).upcoming()
                } else {
                    &&& r matches Ok(out)
                    &&& out@ == v
                    &&& final(self).log() == apply_cut(old(self).log(), v.cut)
                    &&& final(self).upcoming() == v.last_applied + 1
                }
            }),
    {
        let out = match replay_records(self.log.as_slice(), start_seq, dim) {
            Ok(out) => out,
            Err(e) => { return Err(e); },
        };
        if out.last_applied == u64::MAX {
            return Err(
                Error::WalError {
                    seq: out.last_applied,
                    message: "sequence numbers are used up".to_owned(),
                },
            );
        }
        match out.cut {
            Some(c) => {
                self.log.truncate(c);
            },
            None => {},
        }
        self.next_seq = out.last_applied + 1;
        Ok(out)
    }

    /// Empties the log; sequence numbers start again at 1.
    pub fn reset(&mut self)
        ensures
            final(self).log() == Seq::<u8>::empty(),
            final(self).upcoming() == 1,
    {
        self.log.clear();
        self.next_seq = 1;
    }
}

/// The insert record for `doc`.
pub fn insert_record(doc: &Document) -> (r: Record)
    ensures
        r@ == (RecordView::Insert {
            id: doc.id@,
            vector: doc.vector@,
            payload: text_of(doc.payload),
        }),
{
    Record::Insert(
        InsertBody {
            id: doc.id.clone(),
            vector: doc.vector.clone(),
            payload: clone_text(&doc.payload),
        },
    )
}

/// The delete record for the document `id`.
pub fn delete_record(id: &str) -> (r: Record)
    ensures
        r@ == (RecordView::Delete { id: id@ }),
{
    Record::Delete(DeleteBody { id: id.to_owned() })
}

/// The log that holds `records` in order, numbered from `first_seq`.
pub open spec fn log_of(records: Seq<RecordView>, first_seq: u64) -> Seq<u8>
    decreases records.len(),
{
    if records.len() == 0 {
        Seq::empty()
    } else {
        record_bytes(first_seq, records[0]) + log_of(
            records.drop_first(),
            (first_seq + 1) as u64,
        )
    }
}

/// `records`, each with its sequence number, counted from `first_seq`.
pub open spec fn numbered(records: Seq<RecordView>, first_seq: u64) -> Seq<(u64, RecordView)> {
    Seq::new(records.len(), |i: int| ((first_seq + i) as u64, records[i]))
}

/// Whether every record of `records` is encodable for dimension `dim`.
pub open spec fn all_encodable(records: Seq<RecordView>, dim: nat) -> bool {
    forall|i: int| 0 <= i < records.len() ==> encodable(#[trigger] records[i], dim)
}

/// The sequence number of the last of `count` records numbered from
/// `first_seq`, or `prev` when there is none.
pub open spec fn last_seq_of(prev: u64, first_seq: u64, count: nat) -> u64 {
    if count == 0 {
        prev
    } else {
        (first_seq + count - 1) as u64
    }
}

/// How many of `records`, numbered from `first_seq`, lie whole within the
/// first `n` bytes of their log.
pub open spec fn complete_records(records: Seq<RecordView>, first_seq: u64, n: int) -> nat
    decreases records.len(),
{
    if records.len() == 0 {
        0
    } else {
        let l = record_bytes(first_seq, records[0]).len();
        if l <= n {
            1 + complete_records(records.drop_first(), (first_seq + 1) as u64, n - l)
        } else {
            0
        }
    }
}

/// An encodable record at the front of a log is found there whole and
/// intact, and what follows it is the rest of the log.
pub proof fn lemma_front_record(seq: u64, r: RecordView, dim: nat, tail: Seq<u8>)
    requires
        encodable(r, dim),
    ensures
        ({
            let b = record_bytes(seq, r) + tail;
            let h = header_for(seq, opcode_of(r), body_bytes(r));
            &&& record_bytes(seq, r).len() == 17 + body_bytes(r).len()
            &&& h.len == 5 + body_bytes(r).len()
            &&& header_at(b) == Some(h)
            &&& body_at(b, h) == Some(body_bytes(r))
            &&& frame_intact(h, body_bytes(r))
            &&& b.skip(12 + h.len) == tail
            &&& parse_body(h.opcode, body_bytes(r), dim) == Some(r)
        }),
{
    let body = body_bytes(r);
    let h = header_for(seq, opcode_of(r), body);
    let b = record_bytes(seq, r) + tail;
    lemma_header_round_trip(h, body + tail);
    assert(header_bytes(h) + (body + tail) =~= b);
    assert(b.subrange(17, 17 + body.len() as int) =~= body);
    assert(b.skip(17 + body.len() as int) =~= tail);
    lemma_body_round_trip(r, dim);
}

/// A log cut inside its first record holds no valid record.
proof fn lemma_cut_inside_first(seq: u64, r: RecordView, dim: nat, tail: Seq<u8>, n: int)
    requires
        encodable(r, dim),
        0 <= n < record_bytes(seq, r).len(),
    ensures
        ({
            let b = (record_bytes(seq, r) + tail).take(n);
            header_at(b) matches Some(h) ==> body_at(b, h) is None
        }),
{
    let full = record_bytes(seq, r) + tail;
    let b = full.take(n);
    lemma_front_record(seq, r, dim, tail);
    if n >= 17 {
        assert(b.subrange(0, 8) =~= full.subrange(0, 8));
        assert(b.subrange(8, 12) =~= full.subrange(8, 12));
        assert(b.subrange(12, 16) =~= full.subrange(12, 16));
        assert(b[16] == full[16]);
    }
}

/// Sequence numbers. Let `stages` be a log before the first and after
/// each of a row of appends that succeeded, with nothing else done to it
/// in between, and `seqs` the numbers that the appends returned. Then the
/// numbers count up by one from the number that was next before the
/// first append, with no gap and none twice, the last is one below the
/// number that is next afterwards, and the log has grown by the records
/// in order.
pub proof fn law_appends_count_up(stages: Seq<Wal>, records: Seq<RecordView>, seqs: Seq<u64>)
    requires
        stages.len() == records.len() + 1,
        seqs.len() == records.len(),
        forall|i: int|
            0 <= i < records.len() ==> (#[trigger] stages[i]).appended(
                &stages[i + 1],
                records[i],
                seqs[i],
            ),
    ensures
        forall|i: int| 0 <= i < seqs.len() ==> #[trigger] seqs[i] == stages[0].upcoming() + i,
        forall|i: int, j: int| 0 <= i < j < seqs.len() ==> #[trigger] seqs[i] < #[trigger] seqs[j],
        stages.last().upcoming() == stages[0].upcoming() + records.len(),
        seqs.len() > 0 ==> seqs.last() == stages.last().upcoming() - 1,
        stages.last().log() == stages[0].log() + log_of(records, stages[0].upcoming()),
    decreases records.len(),
{
    let first = stages[0].upcoming();
    if records.len() == 0 {
        assert(stages[0].log() + log_of(records, first) =~= stages[0].log());
    } else {
        let n = records.len() - 1;
        let front = records.drop_last();
        assert forall|i: int| 0 <= i < front.len() implies (#[trigger] stages.drop_last()[i]).appended(
            &stages.drop_last()[i + 1],
            front[i],
            seqs.drop_last()[i],
        ) by {
            assert(stages[i].appended(&stages[i + 1], records[i], seqs[i]));
        }
        law_appends_count_up(stages.drop_last(), front, seqs.drop_last());
        assert(stages.drop_last()[0] == stages[0]);
        assert(stages.drop_last().last() == stages[n as int]);
        assert(stages[n as int].appended(&stages[n + 1], records[n as int], seqs[n as int]));
        assert forall|i: int| 0 <= i < seqs.len() implies #[trigger] seqs[i] == first + i by {
            if i < n {
                assert(seqs.drop_last()[i] == seqs[i]);
            }
        }
        lemma_log_of_push(front, first, records[n as int]);
        assert(front.push(records[n as int]) =~= records);
        assert(stages.last().log() =~= stages[0].log() + log_of(records, first));
    }
}

/// Round trip. A log made of encodable records, numbered consecutively,
/// is valid to its end, and its replay hands out exactly those records,
/// in order, each under its number, asking for no cut.
pub proof fn law_log_round_trip(
    records: Seq<RecordView>,
    first_seq: u64,
    prev: u64,
    start_seq: u64,
    dim: nat,
)
    requires
        all_encodable(records, dim),
        first_seq >= 1,
        first_seq + records.len() <= u64::MAX,
        follows(prev, first_seq),
        start_seq <= first_seq,
    ensures
        scan_spec(log_of(records, first_seq), prev) == (
            log_of(records, first_seq).len() as int,
            last_seq_of(prev, first_seq, records.len()),
        ),
        replay_spec(log_of(records, first_seq), prev, start_seq, dim) == (ReplayView {
            records: numbered(records, first_seq),
            last_applied: last_seq_of(prev, first_seq, records.len()),
            cut: None,
            failed: false,
        }),
    decreases records.len(),
{
    let log = log_of(records, first_seq);
    if records.len() == 0 {
        assert(numbered(records, first_seq) =~= Seq::empty());
    } else {
        let r = records[0];
        let rest = records.drop_first();
        let next = (first_seq + 1) as u64;
        let tail = log_of(rest, next);
        assert(encodable(r, dim));
        assert(all_encodable(rest, dim)) by {
            assert forall|i: int| 0 <= i < rest.len() implies encodable(
                #[trigger] rest[i],
                dim,
            ) by {
                assert(rest[i] == records[i + 1]);
            }
        }
        lemma_front_record(first_seq, r, dim, tail);
        law_log_round_trip(rest, next, first_seq, start_seq, dim);
        let sub = replay_spec(tail, first_seq, start_seq, dim);
        assert(seq![(first_seq, r)] + numbered(rest, next) =~= numbered(records, first_seq));
    }
}

/// Corruption tolerance. However a log of encodable records is cut short,
/// the valid prefix of what is left is the log of its first whole records,
/// and the replay of that prefix hands out exactly those.
pub proof fn law_truncated_log(
    records: Seq<RecordView>,
    first_seq: u64,
    prev: u64,
    dim: nat,
    n: int,
)
    requires
        all_encodable(records, dim),
        first_seq >= 1,
        first_seq + records.len() <= u64::MAX,
        follows(prev, first_seq),
        0 <= n <= log_of(records, first_seq).len(),
    ensures
        ({
            let left = log_of(records, first_seq).take(n);
            let k = complete_records(records, first_seq, n);
            let kept = left.take(scan_spec(left, prev).0);
            &&& k <= records.len()
            &&& 0 <= scan_spec(left, prev).0 <= n
            &&& scan_spec(left, prev).1 == last_seq_of(prev, first_seq, k)
            &&& kept == log_of(records.take(k as int), first_seq)
            &&& replay_spec(kept, prev, first_seq, dim) == (ReplayView {
                records: numbered(records.take(k as int), first_seq),
                last_applied: last_seq_of(prev, first_seq, k),
                cut: None,
                failed: false,
            })
        }),
    decreases records.len(),
{
    let log = log_of(records, first_seq);
    let left = log.take(n);
    let k = complete_records(records, first_seq, n);
    if records.len() == 0 {
        assert(left =~= Seq::empty());
        assert(left.take(0) =~= Seq::empty());
        assert(records.take(0) =~= records);
        assert(numbered(records, first_seq) =~= Seq::empty());
    } else {
        let r = records[0];
        let rest = records.drop_first();
        let next = (first_seq + 1) as u64;
        let tail = log_of(rest, next);
        let a = record_bytes(first_seq, r);
        assert(encodable(r, dim));
        assert(all_encodable(rest, dim)) by {
            assert forall|i: int| 0 <= i < rest.len() implies encodable(
                #[trigger] rest[i],
                dim,
            ) by {
                assert(rest[i] == records[i + 1]);
            }
        }
        if a.len() <= n {
            let m = n - a.len();
            assert(left =~= a + tail.take(m));
            lemma_front_record(first_seq, r, dim, tail.take(m));
            law_truncated_log(rest, next, first_seq, dim, m);
            let k1 = complete_records(rest, next, m);
            let v1 = scan_spec(tail.take(m), first_seq).0;
            assert(left.take(a.len() + v1) =~= a + tail.take(m).take(v1));
            assert(records.take(k1 as int + 1).drop_first() =~= rest.take(k1 as int));
            assert(records.take(k1 as int + 1)[0] == r);
            let kept = left.take(a.len() + v1);
            assert(kept == log_of(records.take(k as int), first_seq));
            assert(all_encodable(records.take(k as int), dim));
            law_log_round_trip(records.take(k as int), first_seq, prev, first_seq, dim);
        } else {
            lemma_cut_inside_first(first_seq, r, dim, tail, n);
            assert(left.take(0) =~= Seq::empty());
            assert(records.take(0) =~= Seq::empty());
            assert(numbered(records.take(0), first_seq) =~= Seq::empty());
        }
    }
}

/// Idempotent replay. A replay that did not fail, repeated on the log as
/// the first one left it, hands out the same records and ends at the same
/// sequence number, and asks for no further cut.
pub proof fn law_replay_idempotent(b: Seq<u8>, last: u64, start_seq: u64, dim: nat)
    requires
        !replay_spec(b, last, start_seq, dim).failed,
    ensures
        ({
            let v = replay_spec(b, last, start_seq, dim);
            &&& v.cut matches Some(c) ==> 0 <= c <= b.len()
            &&& replay_spec(apply_cut(b, v.cut), last, start_seq, dim) == (ReplayView {
                records: v.records,
                last_applied: v.last_applied,
                cut: None,
                failed: false,
            })
        }),
    decreases b.len(),
{
    let v = replay_spec(b, last, start_seq, dim);
    let b2 = apply_cut(b, v.cut);
    match header_at(b) {
        None => {},
        Some(h) => {
            let n = 12 + h.len;
            let applies = h.seq >= start_seq && follows(last, h.seq) && body_at(b, h) is Some
                && frame_intact(h, body_at(b, h)->0);
            let skips = h.seq < start_seq && !(h.len < 5 || n > b.len());
            if skips || applies {
                let sub = replay_spec(b.skip(n), h.seq, start_seq, dim);
                law_replay_idempotent(b.skip(n), h.seq, start_seq, dim);
                assert(b2.len() >= n);
                assert(b2.subrange(0, 8) =~= b.subrange(0, 8));
                assert(b2.subrange(8, 12) =~= b.subrange(8, 12));
                assert(b2.subrange(12, 16) =~= b.subrange(12, 16));
                assert(b2.subrange(17, n) =~= b.subrange(17, n));
                assert(b2.skip(n) =~= apply_cut(b.skip(n), sub.cut));
            } else if v.cut is Some {
                assert(b2 =~= Seq::empty());
            }
        },
    }
}


/// Appending a record to the list appends its bytes to the log, under the
/// next sequence number.
pub proof fn lemma_log_of_push(records: Seq<RecordView>, first_seq: u64, r: RecordView)
    requires
        first_seq + records.len() <= u64::MAX,
    ensures
        log_of(records.push(r), first_seq) == log_of(records, first_seq) + record_bytes(
            (first_seq + records.len()) as u64,
            r,
        ),
    decreases records.len(),
{
    let all = records.push(r);
    if records.len() == 0 {
        reveal_with_fuel(log_of, 2);
        assert(all.drop_first() =~= Seq::empty());
        assert(all[0] == r);
        assert(log_of(all, first_seq) =~= log_of(records, first_seq) + record_bytes(first_seq, r));
    } else {
        let next = (first_seq + 1) as u64;
        lemma_log_of_push(records.drop_first(), next, r);
        assert(all.drop_first() =~= records.drop_first().push(r));
        assert(all[0] == records[0]);
        assert(log_of(all, first_seq) == record_bytes(first_seq, records[0]) + (log_of(
            records.drop_first(),
            next,
        ) + record_bytes((first_seq + records.len()) as u64, r)));
        assert(log_of(all, first_seq) =~= log_of(records, first_seq) + record_bytes(
            (first_seq + records.len()) as u64,
            r,
        ));
    }
}


/// Every insert that a replay for dimension `dim` hands out has a vector
/// of `dim` components.
pub proof fn lemma_replay_vectors(b: Seq<u8>, last: u64, start_seq: u64, dim: nat)
    ensures
        forall|i: int|
            0 <= i < replay_spec(b, last, start_seq, dim).records.len() ==> vector_len(
                (#[trigger] replay_spec(b, last, start_seq, dim).records[i]).1,
            ) == dim || replay_spec(b, last, start_seq, dim).records[i].1 is Delete,
    decreases b.len(),
{
    let v = replay_spec(b, last, start_seq, dim);
    match header_at(b) {
        None => {},
        Some(h) => {
            let n = 12 + h.len;
            if h.seq < start_seq {
                if !(h.len < 5 || n > b.len()) {
                    lemma_replay_vectors(b.skip(n), h.seq, start_seq, dim);
                }
            } else if follows(last, h.seq) && body_at(b, h) is Some && frame_intact(
                h,
                body_at(b, h)->0,
            ) {
                let body = body_at(b, h)->0;
                match parse_body(h.opcode, body, dim) {
                    Some(r) => {
                        lemma_replay_vectors(b.skip(n), h.seq, start_seq, dim);
                        let rest = replay_spec(b.skip(n), h.seq, start_seq, dim);
                        assert forall|i: int| 0 <= i < v.records.len() implies vector_len(
                            (#[trigger] v.records[i]).1,
                        ) == dim || v.records[i].1 is Delete by {
                            if i > 0 {
                                assert(v.records[i] == rest.records[i - 1]);
                            } else {
                                assert(v.records[0].1 == r);
                            }
                        }
                    },
                    None => {},
                }
            }
        },
    }
}

} // verus!
