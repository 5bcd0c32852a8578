//! The record codec: framing of a single log record as a fixed 12-byte
//! header (checksum, key length, value length, each a little-endian
//! 32-bit integer) followed by the key and value bytes.

use vstd::prelude::*;

use crate::checksum::crc32_ieee;
use crate::checksum::crc32_of;

verus! {

/// What a record decode can report instead of a record.
#[derive(Clone, Copy, Debug, PartialEq, Eq, Structural)]
pub enum KvError {
    /// No bytes remain at the given offset: the clean end of the log.
    EndOfLog,
    /// The record is cut short: its header promises more bytes than
    /// remain, or the header itself is truncated.
    IncompleteRecord,
    /// The record is complete but its stored checksum does not match
    /// its key and value bytes.
    CorruptRecord,
}

/// One decoded record: a key and the value most recently written for it.
#[derive(Debug)]
pub struct KeyValuePair {
    pub key: Vec<u8>,
    pub value: Vec<u8>,
}

/// The value of four bytes read as a little-endian 32-bit integer.
pub open spec fn le32(s: Seq<u8>) -> int
    recommends
        s.len() == 4,
{
    s[0] as int + 0x100 * (s[1] as int) + 0x1_0000 * (s[2] as int) + 0x100_0000 * (s[3] as int)
}

/// The four little-endian bytes of a 32-bit value.
pub open spec fn le32_bytes(v: int) -> Seq<u8>
    recommends
        0 <= v < 0x1_0000_0000,
{
    seq![
        (v % 0x100) as u8,
        ((v / 0x100) % 0x100) as u8,
        ((v / 0x100 / 0x100) % 0x100) as u8,
        ((v / 0x100 / 0x100 / 0x100) % 0x100) as u8,
    ]
}

pub proof fn lemma_le32_roundtrip(v: int)
    requires
        0 <= v < 0x1_0000_0000,
    ensures
        le32(le32_bytes(v)) == v,
{
    let q1 = v / 0x100;
    let q2 = q1 / 0x100;
    let q3 = q2 / 0x100;
    assert(v == 0x100 * q1 + v % 0x100);
    assert(q1 == 0x100 * q2 + q1 % 0x100);
    assert(q2 == 0x100 * q3 + q2 % 0x100);
    assert(q3 < 0x100);
    assert(q3 % 0x100 == q3);
}

/// The fixed 12-byte record header fits in the log at `off`.
pub open spec fn header_fits(log: Seq<u8>, off: int) -> bool {
    0 <= off && off + 12 <= log.len()
}

/// The checksum stored in the header of the record at `off`.
pub open spec fn rec_checksum(log: Seq<u8>, off: int) -> int {
    le32(log.subrange(off, off + 4))
}

/// The key length stored in the header of the record at `off`.
pub open spec fn rec_key_len(log: Seq<u8>, off: int) -> int {
    le32(log.subrange(off + 4, off + 8))
}

/// The value length stored in the header of the record at `off`.
pub open spec fn rec_val_len(log: Seq<u8>, off: int) -> int {
    le32(log.subrange(off + 8, off + 12))
}

/// Total size in bytes of the record at `off`: header plus body.
pub open spec fn rec_len(log: Seq<u8>, off: int) -> int {
    12 + rec_key_len(log, off) + rec_val_len(log, off)
}

/// A complete record (header and body) lies at `off`.
pub open spec fn frame_fits(log: Seq<u8>, off: int) -> bool {
    header_fits(log, off) && off + rec_len(log, off) <= log.len()
}

/// The key bytes of the record at `off`.
pub open spec fn rec_key(log: Seq<u8>, off: int) -> Seq<u8> {
    log.subrange(off + 12, off + 12 + rec_key_len(log, off))
}

/// The value bytes of the record at `off`.
pub open spec fn rec_val(log: Seq<u8>, off: int) -> Seq<u8> {
    log.subrange(off + 12 + rec_key_len(log, off), off + rec_len(log, off))
}

/// A complete record at `off` whose stored checksum matches its body.
pub open spec fn rec_ok(log: Seq<u8>, off: int) -> bool {
    frame_fits(log, off) && rec_checksum(log, off) == crc32_of(
        rec_key(log, off) + rec_val(log, off),
    ) as int
}

/// The framed bytes of one record for the given key and value.
pub open spec fn spec_frame(key: Seq<u8>, value: Seq<u8>) -> Seq<u8>
    recommends
        key.len() < 0x1_0000_0000,
        value.len() < 0x1_0000_0000,
{
    le32_bytes(crc32_of(key + value) as int) + le32_bytes(key.len() as int) + le32_bytes(
        value.len() as int,
    ) + key + value
}

/// What decoding the single record at `pos` yields: the key and value
/// on success, and otherwise which of the three conditions stopped it.
pub open spec fn spec_decode(log: Seq<u8>, pos: int) -> Result<(Seq<u8>, Seq<u8>), KvError> {
    if pos >= log.len() {
        Err(KvError::EndOfLog)
    } else if !frame_fits(log, pos) {
        Err(KvError::IncompleteRecord)
    } else if !rec_ok(log, pos) {
        Err(KvError::CorruptRecord)
    } else {
        Ok((rec_key(log, pos), rec_val(log, pos)))
    }
}

/// A freshly framed record parses back to the key and value it was
/// built from, and occupies exactly its own bytes.
pub proof fn lemma_frame_parses(key: Seq<u8>, value: Seq<u8>)
    requires
        key.len() < 0x1_0000_0000,
        value.len() < 0x1_0000_0000,
    ensures
        spec_frame(key, value).len() == 12 + key.len() + value.len(),
        rec_key_len(spec_frame(key, value), 0) == key.len(),
        rec_val_len(spec_frame(key, value), 0) == value.len(),
        rec_len(spec_frame(key, value), 0) == spec_frame(key, value).len(),
        rec_key(spec_frame(key, value), 0) == key,
        rec_val(spec_frame(key, value), 0) == value,
        rec_ok(spec_frame(key, value), 0),
{
    let f = spec_frame(key, value);
    assert(f.subrange(0, 4) =~= le32_bytes(crc32_of(key + value) as int));
    assert(f.subrange(4, 8) =~= le32_bytes(key.len() as int));
    assert(f.subrange(8, 12) =~= le32_bytes(value.len() as int));
    lemma_le32_roundtrip(crc32_of(key + value) as int);
    lemma_le32_roundtrip(key.len() as int);
    lemma_le32_roundtrip(value.len() as int);
    assert(rec_key_len(f, 0) == key.len());
    assert(rec_val_len(f, 0) == value.len());
    assert(rec_key(f, 0) =~= key);
    assert(rec_val(f, 0) =~= value);
}

/// Appends the bytes of a slice to a vector.
fn push_bytes(out: &mut Vec<u8>, s: &[u8])
    ensures
        final(out)@ == old(out)@ + s@,
{
    let mut i: usize = 0;
    while i < s.len()
        invariant
            i <= s@.len(),
            out@ == old(out)@ + s@.subrange(0, i as int),
        decreases s@.len() - i,
    {
        out.push(s[i]);
        i = i + 1;
        assert(old(out)@ + s@.subrange(0, i - 1) + seq![s@[i - 1]] =~= old(out)@ + s@.subrange(
            0,
            i as int,
        ));
    }
    assert(old(out)@ + s@.subrange(0, s@.len() as int) =~= old(out)@ + s@);
}

/// Appends the four little-endian bytes of `v` to a vector.
fn push_le32(out: &mut Vec<u8>, v: u32)
    ensures
        final(out)@ == old(out)@ + le32_bytes(v as int),
{
    out.push((v % 0x100) as u8);
    out.push((v / 0x100 % 0x100) as u8);
    out.push((v / 0x100 / 0x100 % 0x100) as u8);
    out.push((v / 0x100 / 0x100 / 0x100 % 0x100) as u8);
    assert(out@ =~= old(out)@ + le32_bytes(v as int));
}

/// Copies a byte slice into an owned vector.
pub(crate) fn own_bytes(s: &[u8]) -> (r: Vec<u8>)
    ensures
        r@ == s@,
{
    let mut r: Vec<u8> = Vec::new();
    push_bytes(&mut r, s);
    proof {
        assert(Seq::<u8>::empty() + s@ =~= s@);
    }
    r
}

/// Copies `log[start..end]` into a fresh vector.
pub(crate) fn bytes_range(log: &Vec<u8>, start: usize, end: usize) -> (r: Vec<u8>)
    requires
        start <= end <= log@.len(),
    ensures
        r@ == log@.subrange(start as int, end as int),
{
    let mut r: Vec<u8> = Vec::new();
    let mut i: usize = start;
    while i < end
        invariant
            start <= i <= end <= log@.len(),
            r@ == log@.subrange(start as int, i as int),
        decreases end - i,
    {
        r.push(log[i]);
        i = i + 1;
        assert(r@ =~= log@.subrange(start as int, i as int));
    }
    r
}

/// Reads the little-endian 32-bit integer at `pos`.
fn read_le32_at(log: &Vec<u8>, pos: usize) -> (r: u32)
    requires
        pos + 4 <= log@.len(),
    ensures
        r as int == le32(log@.subrange(pos as int, pos as int + 4)),
{
    let _len: usize = log.len();
    let b0 = log[pos] as u32;
    let b1 = log[pos + 1] as u32;
    let b2 = log[pos + 2] as u32;
    let b3 = log[pos + 3] as u32;
    b0 + 0x100 * b1 + 0x1_0000 * b2 + 0x100_0000 * b3
}

/// Frames one record: the 12-byte header, then the key and value bytes.
/// The checksum in the header is the CRC-32/IEEE digest of key and value.
pub fn encode(key: &[u8], value: &[u8]) -> (r: Vec<u8>)
    requires
        key@.len() < 0x1_0000_0000,
        value@.len() < 0x1_0000_0000,
    ensures
        r@ == spec_frame(key@, value@),
{
    let mut body: Vec<u8> = Vec::new();
    push_bytes(&mut body, key);
    push_bytes(&mut body, value);
    let checksum = crc32_ieee(body.as_slice());
    let mut r: Vec<u8> = Vec::new();
    push_le32(&mut r, checksum);
    push_le32(&mut r, key.len() as u32);
    push_le32(&mut r, value.len() as u32);
    push_bytes(&mut r, body.as_slice());
    assert(r@ =~= spec_frame(key@, value@));
    r
}

/// Decodes the single record starting at `pos`: reads the header, checks
/// that the whole record lies within the log, recomputes the checksum
/// over the key and value bytes, and returns owned copies of both.
pub fn decode_at(log: &Vec<u8>, pos: usize) -> (r: Result<KeyValuePair, KvError>)
    ensures
        match r {
            Ok(kv) => spec_decode(log@, pos as int) == Ok::<(Seq<u8>, Seq<u8>), KvError>(
                (kv.key@, kv.value@),
            ),
            Err(e) => spec_decode(log@, pos as int) == Err::<(Seq<u8>, Seq<u8>), KvError>(e),
        },
{
    if pos >= log.len() {
        return Err(KvError::EndOfLog);
    }
    if log.len() - pos < 12 {
        return Err(KvError::IncompleteRecord);
    }
    let stored = read_le32_at(log, pos);
    let key_len = read_le32_at(log, pos + 4);
    let val_len = read_le32_at(log, pos + 8);
    let avail: u64 = (log.len() - pos - 12) as u64;
    if key_len as u64 + val_len as u64 > avail {
        return Err(KvError::IncompleteRecord);
    }
    let key_start = pos + 12;
    let val_start = key_start + key_len as usize;
    let val_end = val_start + val_len as usize;
    let key = bytes_range(log, key_start, val_start);
    let value = bytes_range(log, val_start, val_end);
    let body = bytes_range(log, key_start, val_end);
    assert(body@ =~= rec_key(log@, pos as int) + rec_val(log@, pos as int));
    let computed = crc32_ieee(body.as_slice());
    if computed != stored {
        return Err(KvError::CorruptRecord);
    }
    Ok(KeyValuePair { key, value })
}

} // verus!
