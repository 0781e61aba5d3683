//! Little-endian fields and UTF-8 text inside byte strings.
//!
//! Every on-disk format of the library is a concatenation of such fields.
//! The functions here read one field at an offset or append one to a buffer,
//! and say exactly which bytes are involved.

use vstd::prelude::*;
use vstd::bytes::*;
use vstd::utf8::*;
use vstd::string::*;

verus! {

/// The `u8` at `pos`, if `b` is long enough.
pub open spec fn spec_read_u8(b: Seq<u8>, pos: int) -> Option<u8> {
    if 0 <= pos && pos + 1 <= b.len() {
        Some(b[pos])
    } else {
        None
    }
}

/// The little-endian `u32` at `pos`, if `b` is long enough.
pub open spec fn spec_read_u32(b: Seq<u8>, pos: int) -> Option<u32> {
    if 0 <= pos && pos + 4 <= b.len() {
        Some(spec_u32_from_le_bytes(b.subrange(pos, pos + 4)))
    } else {
        None
    }
}

/// The `len` bytes at `pos`, if `b` is long enough.
pub open spec fn spec_read_bytes(b: Seq<u8>, pos: int, len: int) -> Option<Seq<u8>> {
    if 0 <= pos && 0 <= len && pos + len <= b.len() {
        Some(b.subrange(pos, pos + len))
    } else {
        None
    }
}

/// The text that `len` bytes at `pos` encode, if they are there and are
/// well-formed UTF-8.
pub open spec fn spec_read_text(b: Seq<u8>, pos: int, len: int) -> Option<Seq<char>> {
    match spec_read_bytes(b, pos, len) {
        Some(raw) => if valid_utf8(raw) {
            Some(decode_utf8(raw))
        } else {
            None
        },
        None => None,
    }
}

/// A sequence of `u32` words, each written little-endian, one after another.
pub open spec fn words_le(words: Seq<u32>) -> Seq<u8>
    decreases words.len(),
{
    if words.len() == 0 {
        Seq::empty()
    } else {
        words_le(words.drop_last()) + spec_u32_to_le_bytes(words.last())
    }
}

/// The `count` little-endian words that start at `pos`.
pub open spec fn words_at(b: Seq<u8>, pos: int, count: nat) -> Seq<u32> {
    Seq::new(count, |i: int| spec_u32_from_le_bytes(b.subrange(pos + 4 * i, pos + 4 * i + 4)))
}

/// `count` little-endian words at `pos`, if `b` is long enough.
pub open spec fn spec_read_words(b: Seq<u8>, pos: int, count: nat) -> Option<Seq<u32>> {
    if 0 <= pos && pos + 4 * count <= b.len() {
        Some(words_at(b, pos, count))
    } else {
        None
    }
}

/// `words_le` has four bytes per word.
pub proof fn lemma_words_le_len(words: Seq<u32>)
    ensures
        words_le(words).len() == 4 * words.len(),
    decreases words.len(),
{
    lemma_auto_spec_u32_to_from_le_bytes();
    if words.len() > 0 {
        lemma_words_le_len(words.drop_last());
    }
}

/// Reading back what `words_le` wrote, wherever it stands, gives the words.
pub proof fn lemma_words_round_trip(before: Seq<u8>, words: Seq<u32>, after: Seq<u8>)
    ensures
        words_at(before + words_le(words) + after, before.len() as int, words.len()) == words,
    decreases words.len(),
{
    lemma_auto_spec_u32_to_from_le_bytes();
    lemma_words_le_len(words);
    let all = before + words_le(words) + after;
    let got = words_at(all, before.len() as int, words.len());
    if words.len() > 0 {
        let head = words.drop_last();
        let tail = spec_u32_to_le_bytes(words.last());
        lemma_words_le_len(head);
        lemma_words_round_trip(before, head, tail + after);
        assert(before + words_le(head) + (tail + after) =~= all);
        let prev = words_at(all, before.len() as int, head.len());
        assert(prev == head);
        assert forall|i: int| 0 <= i < words.len() implies got[i] == words[i] by {
            if i < head.len() {
                assert(got[i] == prev[i]);
                assert(head[i] == words[i]);
            } else {
                let p = before.len() + 4 * i;
                assert(all.subrange(p, p + 4) =~= tail);
            }
        }
    }
    assert(got =~= words);
}

/// `String::from_utf8`: the text that `bytes` encode when they are
/// well-formed UTF-8, and nothing when they are not.
#[verifier::external_body]
pub(crate) fn string_from_utf8(bytes: Vec<u8>) -> (r: Option<String>)
    ensures
        r is Some <==> valid_utf8(bytes@),
        r matches Some(s) ==> s@ == decode_utf8(bytes@),
{
    String::from_utf8(bytes).ok()
}

/// Reads one byte at `pos`.
pub fn read_u8(data: &[u8], pos: usize) -> (r: Option<u8>)
    ensures
        r == spec_read_u8(data@, pos as int),
{
    if pos < data.len() {
        Some(data[pos])
    } else {
        None
    }
}

/// Reads a little-endian `u32` at `pos`.
pub fn read_u32(data: &[u8], pos: usize) -> (r: Option<u32>)
    ensures
        r == spec_read_u32(data@, pos as int),
{
    if pos <= data.len() && data.len() - pos >= 4 {
        Some(u32_from_le_bytes(vstd::slice::slice_subrange(data, pos, pos + 4)))
    } else {
        None
    }
}

/// Copies `len` bytes starting at `pos`.
pub fn read_bytes(data: &[u8], pos: usize, len: usize) -> (r: Option<Vec<u8>>)
    ensures
        r is Some == spec_read_bytes(data@, pos as int, len as int) is Some,
        r matches Some(v) ==> Some(v@) == spec_read_bytes(data@, pos as int, len as int),
{
    if pos <= data.len() && data.len() - pos >= len {
        let part = vstd::slice::slice_subrange(data, pos, pos + len);
        Some(vstd::slice::slice_to_vec(part))
    } else {
        None
    }
}

/// Reads `len` bytes at `pos` as UTF-8 text.
pub fn read_text(data: &[u8], pos: usize, len: usize) -> (r: Option<String>)
    ensures
        r is Some == spec_read_text(data@, pos as int, len as int) is Some,
        r matches Some(s) ==> Some(s@) == spec_read_text(data@, pos as int, len as int),
{
    match read_bytes(data, pos, len) {
        Some(raw) => string_from_utf8(raw),
        None => None,
    }
}

/// Reads `count` little-endian words at `pos`.
pub fn read_words(data: &[u8], pos: usize, count: usize) -> (r: Option<Vec<u32>>)
    ensures
        r is Some == spec_read_words(data@, pos as int, count as nat) is Some,
        r matches Some(v) ==> Some(v@) == spec_read_words(data@, pos as int, count as nat),
{
    if pos > data.len() || (data.len() - pos) / 4 < count {
        return None;
    }
    let mut out: Vec<u32> = Vec::new();
    let mut i: usize = 0;
    while i < count
        invariant
            i <= count,
            pos as int + 4 * count as int <= data@.len(),
            data@.len() <= usize::MAX,
            out@ == words_at(data@, pos as int, i as nat),
        decreases count - i,
    {
        let p: usize = pos + 4 * i;
        let w = u32_from_le_bytes(vstd::slice::slice_subrange(data, p, p + 4));
        out.push(w);
        i += 1;
        assert(out@ =~= words_at(data@, pos as int, i as nat));
    }
    Some(out)
}

/// Appends all of `src` to `buf`.
pub fn put_bytes(buf: &mut Vec<u8>, src: &[u8])
    ensures
        final(buf)@ == old(buf)@ + src@,
{
    let mut i: usize = 0;
    while i < src.len()
        invariant
            i <= src@.len(),
            buf@ == old(buf)@ + src@.subrange(0, i as int),
        decreases src@.len() - i,
    {
        buf.push(src[i]);
        i += 1;
        assert(buf@ =~= old(buf)@ + src@.subrange(0, i as int));
    }
    assert(src@.subrange(0, src@.len() as int) =~= src@);
}

/// Appends one byte.
pub fn put_u8(buf: &mut Vec<u8>, x: u8)
    ensures
        final(buf)@ == old(buf)@ + seq![x],
{
    buf.push(x);
    assert(buf@ =~= old(buf)@ + seq![x]);
}

/// Appends `x`, little-endian.
pub fn put_u16(buf: &mut Vec<u8>, x: u16)
    ensures
        final(buf)@ == old(buf)@ + spec_u16_to_le_bytes(x),
{
    let b = u16_to_le_bytes(x);
    put_bytes(buf, b.as_slice());
}

/// Appends `x`, little-endian.
pub fn put_u32(buf: &mut Vec<u8>, x: u32)
    ensures
        final(buf)@ == old(buf)@ + spec_u32_to_le_bytes(x),
{
    let b = u32_to_le_bytes(x);
    put_bytes(buf, b.as_slice());
}

/// Appends `x`, little-endian.
pub fn put_u64(buf: &mut Vec<u8>, x: u64)
    ensures
        final(buf)@ == old(buf)@ + spec_u64_to_le_bytes(x),
{
    let b = u64_to_le_bytes(x);
    put_bytes(buf, b.as_slice());
}

/// Appends every word of `words`, little-endian.
pub fn put_words(buf: &mut Vec<u8>, words: &Vec<u32>)
    ensures
        final(buf)@ == old(buf)@ + words_le(words@),
{
    let mut i: usize = 0;
    assert(buf@ =~= old(buf)@ + words_le(words@.subrange(0, 0)));
    while i < words.len()
        invariant
            i <= words@.len(),
            buf@ == old(buf)@ + words_le(words@.subrange(0, i as int)),
        decreases words@.len() - i,
    {
        put_u32(buf, words[i]);
        proof {
            let next = words@.subrange(0, i as int + 1);
            assert(next.drop_last() =~= words@.subrange(0, i as int));
            assert(next.last() == words@[i as int]);
            assert(buf@ =~= old(buf)@ + words_le(next));
        }
        i += 1;
    }
    assert(words@.subrange(0, words@.len() as int) =~= words@);
}

/// A length-prefixed text: `u32` byte count, then the UTF-8 bytes.
pub open spec fn text_field(t: Seq<char>) -> Seq<u8> {
    spec_u32_to_le_bytes(encode_utf8(t).len() as u32) + encode_utf8(t)
}

/// An optional text: a presence byte, then the text field if present.
pub open spec fn payload_field(p: Option<Seq<char>>) -> Seq<u8> {
    match p {
        None => seq![0u8],
        Some(t) => seq![1u8] + text_field(t),
    }
}

/// Whether the UTF-8 form of `t` has a length that fits the `u32` prefix.
pub open spec fn text_fits(t: Seq<char>) -> bool {
    encode_utf8(t).len() <= u32::MAX
}

/// The text field at `pos`: the text and the offset just behind it.
pub open spec fn parse_text_field(b: Seq<u8>, pos: int) -> Option<(Seq<char>, int)> {
    match spec_read_u32(b, pos) {
        Some(n) => match spec_read_text(b, pos + 4, n as int) {
            Some(t) => Some((t, pos + 4 + n)),
            None => None,
        },
        None => None,
    }
}

/// The optional text at `pos`. Any non-zero presence byte means present.
pub open spec fn parse_payload_field(b: Seq<u8>, pos: int) -> Option<Option<Seq<char>>> {
    match spec_read_u8(b, pos) {
        Some(flag) => if flag == 0 {
            Some(None)
        } else {
            match parse_text_field(b, pos + 1) {
                Some(t) => Some(Some(t.0)),
                None => None,
            }
        },
        None => None,
    }
}

/// A text field written and read back gives the text, wherever it stands.
pub proof fn lemma_text_field_round_trip(before: Seq<u8>, t: Seq<char>, after: Seq<u8>)
    requires
        text_fits(t),
    ensures
        text_field(t).len() == 4 + encode_utf8(t).len(),
        parse_text_field(before + text_field(t) + after, before.len() as int) == Some(
            (t, (before.len() + text_field(t).len()) as int),
        ),
{
    broadcast use encode_utf8_valid_utf8, encode_utf8_decode_utf8;

    lemma_auto_spec_u32_to_from_le_bytes();
    let raw = encode_utf8(t);
    let n = raw.len() as u32;
    let all = before + text_field(t) + after;
    let p = before.len() as int;
    assert(all.subrange(p, p + 4) =~= spec_u32_to_le_bytes(n));
    assert(all.subrange(p + 4, p + 4 + n) =~= raw);
}

/// A payload field written and read back gives the payload.
pub proof fn lemma_payload_field_round_trip(before: Seq<u8>, p: Option<Seq<char>>, after: Seq<u8>)
    requires
        p matches Some(t) ==> text_fits(t),
    ensures
        parse_payload_field(before + payload_field(p) + after, before.len() as int) == Some(p),
{
    let all = before + payload_field(p) + after;
    match p {
        None => {
            assert(all[before.len() as int] == 0u8);
        },
        Some(t) => {
            assert(all[before.len() as int] == 1u8);
            lemma_text_field_round_trip(before + seq![1u8], t, after);
            assert(before + seq![1u8] + text_field(t) + after =~= all);
        },
    }
}

/// Appends a text field; fails when the text is too long for its prefix.
pub fn put_text_field(buf: &mut Vec<u8>, t: &String) -> (ok: bool)
    ensures
        ok == text_fits(t@),
        ok ==> final(buf)@ == old(buf)@ + text_field(t@),
        !ok ==> final(buf)@ == old(buf)@,
{
    let raw = t.as_str().as_bytes();
    if raw.len() > 0xFFFF_FFFF {
        return false;
    }
    put_u32(buf, raw.len() as u32);
    put_bytes(buf, raw);
    assert(buf@ =~= old(buf)@ + text_field(t@));
    true
}

/// Reads the text field at `pos`.
pub fn get_text_field(data: &[u8], pos: usize) -> (r: Option<(String, usize)>)
    ensures
        r is Some == parse_text_field(data@, pos as int) is Some,
        r matches Some(tp) ==> (parse_text_field(data@, pos as int) == Some((tp.0@, tp.1 as int))
            && tp.1 <= data@.len()),
{
    let total = data.len();
    let n = match read_u32(data, pos) {
        Some(n) => n,
        None => { return None; },
    };
    if total - (pos + 4) < n as usize {
        return None;
    }
    let t = match read_text(data, pos + 4, n as usize) {
        Some(t) => t,
        None => { return None; },
    };
    Some((t, pos + 4 + n as usize))
}

/// The text of an optional string.
pub open spec fn text_of(s: Option<String>) -> Option<Seq<char>> {
    match s {
        Some(t) => Some(t@),
        None => None,
    }
}

/// A copy of an optional text.
pub fn clone_text(t: &Option<String>) -> (r: Option<String>)
    ensures
        text_of(r) == text_of(*t),
{
    match t {
        Some(s) => Some(s.clone()),
        None => None,
    }
}

/// Whether two texts are the same.
pub fn text_eq(a: &str, b: &str) -> (r: bool)
    ensures
        r == (a@ == b@),
{
    broadcast use encode_utf8_decode_utf8;

    let x = a.as_bytes();
    let y = b.as_bytes();
    if x.len() != y.len() {
        return false;
    }
    let mut i: usize = 0;
    while i < x.len()
        invariant
            i <= x@.len(),
            x@.len() == y@.len(),
            x@ == encode_utf8(a@),
            y@ == encode_utf8(b@),
            forall|j: int| 0 <= j < i ==> x@[j] == y@[j],
        decreases x@.len() - i,
    {
        if x[i] != y[i] {
            return false;
        }
        i += 1;
    }
    assert(x@ =~= y@);
    assert(decode_utf8(x@) == a@);
    assert(decode_utf8(y@) == b@);
    true
}

} // verus!
