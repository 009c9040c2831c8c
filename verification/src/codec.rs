//! Binary row codec of the log-structured store.
//!
//! A row on disk is `[4-byte CRC32][4-byte timestamp][4-byte key size]
//! [4-byte value size][2-byte key type][2-byte value type][key][value]`,
//! all integers big-endian. The checksum covers every byte from the
//! timestamp through the value.

use vstd::prelude::*;

verus! {

/// Bytes of `x` in big-endian order.
pub open spec fn u32_be_bytes(x: u32) -> Seq<u8> {
    seq![
        (x >> 24) as u8,
        ((x >> 16) & 0xff) as u8,
        ((x >> 8) & 0xff) as u8,
        (x & 0xff) as u8,
    ]
}

/// The integer stored big-endian in the four bytes of `s`.
pub open spec fn u32_from_be_bytes(s: Seq<u8>) -> u32
    recommends
        s.len() == 4,
{
    (((s[0] as u32) << 24) | ((s[1] as u32) << 16) | ((s[2] as u32) << 8) | (s[3] as u32)) as u32
}

/// Decoding the big-endian bytes of `x` gives `x` back.
pub proof fn lemma_u32_be_roundtrip(x: u32)
    ensures
        u32_from_be_bytes(u32_be_bytes(x)) == x,
{
    let b0: u8 = (x >> 24) as u8;
    let b1: u8 = ((x >> 16) & 0xff) as u8;
    let b2: u8 = ((x >> 8) & 0xff) as u8;
    let b3: u8 = (x & 0xff) as u8;
    assert((((b0 as u32) << 24) | ((b1 as u32) << 16) | ((b2 as u32) << 8) | (b3 as u32)) as u32
        == x) by (bit_vector)
        requires
            b0 == (x >> 24) as u8,
            b1 == ((x >> 16) & 0xff) as u8,
            b2 == ((x >> 8) & 0xff) as u8,
            b3 == (x & 0xff) as u8,
    ;
}

/// Appends the big-endian bytes of `x` to `out`.
pub fn push_u32_be(out: &mut Vec<u8>, x: u32)
    ensures
        final(out)@ == old(out)@ + u32_be_bytes(x),
{
    out.push((x >> 24) as u8);
    out.push(((x >> 16) & 0xff) as u8);
    out.push(((x >> 8) & 0xff) as u8);
    out.push((x & 0xff) as u8);
    assert(out@ =~= old(out)@ + u32_be_bytes(x));
}

/// Reads the big-endian integer stored at `pos`.
pub fn read_u32_be(s: &[u8], pos: usize) -> (x: u32)
    requires
        pos + 4 <= s@.len(),
    ensures
        x == u32_from_be_bytes(s@.subrange(pos as int, pos + 4)),
{
    let b0: u8 = s[pos];
    let b1: u8 = s[pos + 1];
    let b2: u8 = s[pos + 2];
    let b3: u8 = s[pos + 3];
    ((b0 as u32) << 24) | ((b1 as u32) << 16) | ((b2 as u32) << 8) | (b3 as u32)
}

/// The CRC-32 checksum of `data`, as `crc32fast` computes it. The result
/// depends on the bytes alone.
pub uninterp spec fn crc32_of(data: Seq<u8>) -> u32;

/// Relies on `crc32fast::hash`: the CRC-32 (IEEE) checksum of the bytes,
/// a pure function of its input.
#[verifier::external_body]
pub(crate) fn crc32(data: &[u8]) -> (r: u32)
    ensures
        r == crc32_of(data@),
{
    crc32fast::hash(data)
}

/// The header and payload of one row, without the leading checksum:
/// timestamp, key size, value size, the two fixed type tags, then the
/// key bytes and the value bytes.
pub open spec fn record_data_bytes(ts: u32, key: Seq<u8>, value: Seq<u8>) -> Seq<u8>
    recommends
        key.len() <= u32::MAX,
        value.len() <= u32::MAX,
{
    u32_be_bytes(ts) + u32_be_bytes(key.len() as u32) + u32_be_bytes(value.len() as u32)
        + seq![0u8, 1u8, 0u8, 1u8] + key + value
}

/// One complete row as stored in the log: the checksum of the data,
/// then the data itself.
pub open spec fn record_bytes(ts: u32, key: Seq<u8>, value: Seq<u8>) -> Seq<u8>
    recommends
        key.len() <= u32::MAX,
        value.len() <= u32::MAX,
{
    u32_be_bytes(crc32_of(record_data_bytes(ts, key, value))) + record_data_bytes(ts, key, value)
}

/// Number of bytes a row with this key and value occupies in the log.
pub open spec fn record_size(key: Seq<u8>, value: Seq<u8>) -> int {
    20 + key.len() as int + value.len() as int
}

/// Builds the bytes of one row.
pub fn encode_record(timestamp: u32, key: &[u8], value: &[u8]) -> (r: Vec<u8>)
    requires
        key@.len() <= u32::MAX,
        value@.len() <= u32::MAX,
    ensures
        r@ == record_bytes(timestamp, key@, value@),
        r@.len() == record_size(key@, value@),
{
    let mut data: Vec<u8> = Vec::new();
    push_u32_be(&mut data, timestamp);
    push_u32_be(&mut data, key.len() as u32);
    push_u32_be(&mut data, value.len() as u32);
    data.push(0);
    data.push(1);
    data.push(0);
    data.push(1);
    data.extend_from_slice(key);
    data.extend_from_slice(value);
    assert(data@ =~= record_data_bytes(timestamp, key@, value@));
    let crc: u32 = crc32(data.as_slice());
    let mut r: Vec<u8> = Vec::new();
    push_u32_be(&mut r, crc);
    r.extend_from_slice(data.as_slice());
    assert(r@ =~= record_bytes(timestamp, key@, value@));
    r
}

/// One row as recovered from the log: its fields plus where it sits.
pub struct RecView {
    pub ts: u32,
    pub key: Seq<u8>,
    pub value: Seq<u8>,
    pub off: int,
    pub total: int,
}

/// Parses the row that starts at `pos`, checking its checksum.
/// `None` when the bytes there do not form a whole, checksummed row.
pub open spec fn parse_record_at(log: Seq<u8>, pos: int) -> Option<RecView> {
    if pos < 0 || pos + 20 > log.len() {
        None
    } else {
        let stored_crc = u32_from_be_bytes(log.subrange(pos, pos + 4));
        let ts = u32_from_be_bytes(log.subrange(pos + 4, pos + 8));
        let ks = u32_from_be_bytes(log.subrange(pos + 8, pos + 12)) as int;
        let vs = u32_from_be_bytes(log.subrange(pos + 12, pos + 16)) as int;
        let total = 20 + ks + vs;
        if pos + total > log.len() {
            None
        } else if stored_crc != crc32_of(log.subrange(pos + 4, pos + total)) {
            None
        } else {
            Some(
                RecView {
                    ts,
                    key: log.subrange(pos + 20, pos + 20 + ks),
                    value: log.subrange(pos + 20 + ks, pos + total),
                    off: pos,
                    total,
                },
            )
        }
    }
}

/// Parses every row from `pos` to the end of the log.
/// `None` when any row is truncated or fails its checksum.
pub open spec fn parse_log_from(log: Seq<u8>, pos: int) -> Option<Seq<RecView>>
    decreases log.len() - pos,
{
    if pos == log.len() {
        Some(Seq::empty())
    } else {
        match parse_record_at(log, pos) {
            Option::None => None,
            Option::Some(r) => {
                if r.total >= 20 && pos + r.total <= log.len() && pos >= 0 {
                    match parse_log_from(log, pos + r.total) {
                        Option::None => None,
                        Option::Some(rest) => Some(seq![r] + rest),
                    }
                } else {
                    None
                }
            },
        }
    }
}

/// Checksum sensitivity: a log whose stored checksum word is anything
/// but the checksum of the row data it precedes does not open; replay
/// rejects the row.
pub proof fn lemma_checksum_mismatch_rejected(stored: u32, ts: u32, key: Seq<u8>, value: Seq<u8>)
    requires
        key.len() <= u32::MAX,
        value.len() <= u32::MAX,
        stored != crc32_of(record_data_bytes(ts, key, value)),
    ensures
        parse_log_from(u32_be_bytes(stored) + record_data_bytes(ts, key, value), 0) is None,
{
    let data = record_data_bytes(ts, key, value);
    let log = u32_be_bytes(stored) + data;
    let n = record_size(key, value);
    assert(log.len() == n);
    assert(log.subrange(0, 4) =~= u32_be_bytes(stored));
    assert(log.subrange(4, 8) =~= data.subrange(0, 4));
    assert(data.subrange(0, 4) =~= u32_be_bytes(ts));
    assert(log.subrange(8, 12) =~= data.subrange(4, 8));
    assert(data.subrange(4, 8) =~= u32_be_bytes(key.len() as u32));
    assert(log.subrange(12, 16) =~= data.subrange(8, 12));
    assert(data.subrange(8, 12) =~= u32_be_bytes(value.len() as u32));
    lemma_u32_be_roundtrip(stored);
    lemma_u32_be_roundtrip(ts);
    lemma_u32_be_roundtrip(key.len() as u32);
    lemma_u32_be_roundtrip(value.len() as u32);
    assert(log.subrange(4, n) =~= data);
    assert(parse_record_at(log, 0) is None);
}

/// A row whose bytes sit at `pos` in the log parses back to its fields.
pub proof fn lemma_parse_record_bytes(log: Seq<u8>, pos: int, ts: u32, key: Seq<u8>, value: Seq<u8>)
    requires
        key.len() <= u32::MAX,
        value.len() <= u32::MAX,
        0 <= pos,
        pos + record_size(key, value) <= log.len(),
        log.subrange(pos, pos + record_size(key, value)) == record_bytes(ts, key, value),
    ensures
        parse_record_at(log, pos) == Some(
            RecView { ts, key, value, off: pos, total: record_size(key, value) },
        ),
{
    let n = record_size(key, value);
    let rb = record_bytes(ts, key, value);
    let data = record_data_bytes(ts, key, value);
    let piece = log.subrange(pos, pos + n);
    assert(rb.len() == n);
    assert forall|a: int, b: int| 0 <= a <= b <= n implies log.subrange(pos + a, pos + b)
        =~= rb.subrange(a, b) by {
        assert forall|i: int| 0 <= i < b - a implies log.subrange(pos + a, pos + b)[i] == rb.subrange(
            a,
            b,
        )[i] by {
            assert(piece[a + i] == log[pos + a + i]);
            assert(piece[a + i] == rb[a + i]);
        }
    }
    assert(log.subrange(pos, pos + 4) =~= rb.subrange(0, 4));
    assert(rb.subrange(0, 4) =~= u32_be_bytes(crc32_of(data)));
    assert(log.subrange(pos + 4, pos + n) =~= rb.subrange(4, n));
    assert(rb.subrange(4, n) =~= data);
    assert(log.subrange(pos + 4, pos + 8) =~= rb.subrange(4, 8));
    assert(rb.subrange(4, 8) =~= u32_be_bytes(ts));
    assert(log.subrange(pos + 8, pos + 12) =~= rb.subrange(8, 12));
    assert(rb.subrange(8, 12) =~= u32_be_bytes(key.len() as u32));
    assert(log.subrange(pos + 12, pos + 16) =~= rb.subrange(12, 16));
    assert(rb.subrange(12, 16) =~= u32_be_bytes(value.len() as u32));
    lemma_u32_be_roundtrip(crc32_of(data));
    lemma_u32_be_roundtrip(ts);
    lemma_u32_be_roundtrip(key.len() as u32);
    lemma_u32_be_roundtrip(value.len() as u32);
    assert(log.subrange(pos + 20, pos + 20 + key.len()) =~= rb.subrange(20, 20 + key.len() as int));
    assert(rb.subrange(20, 20 + key.len() as int) =~= key);
    assert(log.subrange(pos + 20 + key.len(), pos + n) =~= rb.subrange(20 + key.len() as int, n));
    assert(rb.subrange(20 + key.len() as int, n) =~= value);
}

} // verus!
