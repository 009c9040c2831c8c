//! Log-structured key/value engine.
//!
//! The whole store lives in one append-only log. Opening a store replays
//! the log from the front, checking every row's checksum, and rebuilds
//! the in-memory key index; reads seek into the log by that index; writes
//! append one row; compaction rewrites the log with one row per live key.

use vstd::prelude::*;

verus! {

use crate::codec::{
    crc32, crc32_of, encode_record, lemma_parse_record_bytes, parse_log_from, parse_record_at,
    read_u32_be, record_bytes, record_size, u32_from_be_bytes, RecView,
};
use crate::error::VelesError;
use crate::text::bytes_to_string;
use vstd::slice::{slice_subrange, slice_to_vec};
use vstd::utf8::{decode_utf8, encode_utf8, valid_utf8};

broadcast use
    vstd::utf8::encode_utf8_valid_utf8,
    vstd::utf8::encode_utf8_decode_utf8,
    vstd::utf8::decode_utf8_encode_utf8,
;

/// A row is well formed when its key and value are UTF-8 text.
pub open spec fn rec_wf(r: RecView) -> bool {
    valid_utf8(r.key) && valid_utf8(r.value)
}

/// Every row of the log holds UTF-8 text.
pub open spec fn recs_wf(recs: Seq<RecView>) -> bool {
    forall|i: int| 0 <= i < recs.len() ==> #[trigger] rec_wf(recs[i])
}

/// The surviving row per key: a later row for the same key wins.
pub open spec fn entry_map(recs: Seq<RecView>) -> Map<Seq<char>, RecView>
    decreases recs.len(),
{
    if recs.len() == 0 {
        Map::empty()
    } else {
        entry_map(recs.drop_last()).insert(decode_utf8(recs.last().key), recs.last())
    }
}

/// The key/value mapping the rows describe, last write wins.
pub open spec fn kv_map(recs: Seq<RecView>) -> Map<Seq<char>, Seq<char>> {
    entry_map(recs).map_values(|r: RecView| decode_utf8(r.value))
}

/// The key/value mapping stored in a log, when the log parses.
pub open spec fn log_view(log: Seq<u8>) -> Map<Seq<char>, Seq<char>> {
    match parse_log_from(log, 0) {
        Option::Some(recs) => kv_map(recs),
        Option::None => Map::empty(),
    }
}

/// One in-memory index slot: where the surviving row of `key` sits.
struct IndexEntry {
    key: String,
    offset: usize,
    total: usize,
}

/// Sum of the row sizes the index points at.
spec fn index_total(s: Seq<IndexEntry>) -> int
    decreases s.len(),
{
    if s.len() == 0 {
        0
    } else {
        index_total(s.drop_last()) + s.last().total as int
    }
}

/// The index matches the surviving rows of `recs`: keys are unique, every
/// slot points at the surviving row of its key, and every surviving key
/// has a slot.
spec fn index_ok(index: Seq<IndexEntry>, recs: Seq<RecView>) -> bool {
    let m = entry_map(recs);
    &&& forall|i: int, j: int| 0 <= i < j < index.len() ==> index[i].key@ != index[j].key@
    &&& forall|i: int|
        0 <= i < index.len() ==> {
            &&& #[trigger] m.contains_key(index[i].key@)
            &&& m[index[i].key@].off == index[i].offset as int
            &&& m[index[i].key@].total == index[i].total as int
        }
    &&& forall|k: Seq<char>|
        #[trigger] m.contains_key(k) ==> exists|i: int|
            0 <= i < index.len() && #[trigger] index[i].key@ == k
}

/// Log-structured key/value store: the log bytes and the derived index.
pub struct VelesStore {
    log: Vec<u8>,
    index: Vec<IndexEntry>,
}

impl View for VelesStore {
    type V = Map<Seq<char>, Seq<char>>;

    closed spec fn view(&self) -> Map<Seq<char>, Seq<char>> {
        log_view(self.log@)
    }
}

impl VelesStore {
    /// The raw log bytes the store carries.
    pub closed spec fn log(&self) -> Seq<u8> {
        self.log@
    }

    /// The rows of the log (meaningful when the store is well formed).
    pub closed spec fn recs(&self) -> Seq<RecView> {
        match parse_log_from(self.log@, 0) {
            Option::Some(recs) => recs,
            Option::None => Seq::empty(),
        }
    }

    /// The raw log bytes, as they would be written to the log file.
    pub fn log_bytes(&self) -> (r: &Vec<u8>)
        ensures
            r@ == self.log(),
    {
        &self.log
    }

    /// The store is well formed: the log parses whole, every row is
    /// UTF-8 text, the index matches the rows, and the index never
    /// points at more bytes than the log holds.
    pub closed spec fn wf(&self) -> bool {
        &&& parse_log_from(self.log@, 0) == Some(self.recs())
        &&& recs_wf(self.recs())
        &&& index_ok(self.index@, self.recs())
        &&& index_total(self.index@) <= self.log@.len()
    }
}

/// `index_total` grows by the pushed slot.
proof fn lemma_index_total_push(s: Seq<IndexEntry>, e: IndexEntry)
    ensures
        index_total(s.push(e)) == index_total(s) + e.total as int,
{
    assert(s.push(e).drop_last() =~= s);
    assert(s.push(e).last() == e);
}

/// `index_total` shrinks by the removed slot.
proof fn lemma_index_total_remove(s: Seq<IndexEntry>, i: int)
    requires
        0 <= i < s.len(),
    ensures
        index_total(s.remove(i)) == index_total(s) - s[i].total as int,
    decreases s.len(),
{
    if i == s.len() - 1 {
        assert(s.remove(i) =~= s.drop_last());
    } else {
        lemma_index_total_remove(s.drop_last(), i);
        assert(s.remove(i).drop_last() =~= s.drop_last().remove(i));
        assert(s.remove(i).last() == s.last());
    }
}

/// Every row a parse returns re-parses at its own offset.
pub proof fn lemma_parse_log_records(log: Seq<u8>, pos: int, recs: Seq<RecView>)
    requires
        parse_log_from(log, pos) == Some(recs),
    ensures
        forall|i: int|
            0 <= i < recs.len() ==> #[trigger] parse_record_at(log, recs[i].off) == Some(recs[i]),
    decreases log.len() - pos,
{
    if pos == log.len() {
    } else {
        let r = parse_record_at(log, pos)->Some_0;
        let rest = parse_log_from(log, pos + r.total)->Some_0;
        lemma_parse_log_records(log, pos + r.total, rest);
        assert(recs == seq![r] + rest);
        assert(recs[0] == r);
        assert forall|i: int| 0 <= i < recs.len() implies #[trigger] parse_record_at(
            log,
            recs[i].off,
        ) == Some(recs[i]) by {
            if i > 0 {
                assert(recs[i] == rest[i - 1]);
            }
        }
    }
}

/// Every value in the surviving-row map is one of the rows, and it is
/// the row whose key decodes to the map key.
proof fn lemma_entry_map_in_recs(recs: Seq<RecView>, k: Seq<char>)
    requires
        entry_map(recs).contains_key(k),
    ensures
        exists|i: int| 0 <= i < recs.len() && recs[i] == entry_map(recs)[k],
        decode_utf8(entry_map(recs)[k].key) == k,
    decreases recs.len(),
{
    if recs.len() > 0 {
        if k == decode_utf8(recs.last().key) {
            assert(recs[recs.len() - 1] == entry_map(recs)[k]);
        } else {
            lemma_entry_map_in_recs(recs.drop_last(), k);
            let i = choose|i: int|
                0 <= i < recs.drop_last().len() && recs.drop_last()[i] == entry_map(
                    recs.drop_last(),
                )[k];
            assert(recs[i] == entry_map(recs)[k]);
        }
    }
}

/// Where slot `j` of an index sat before the slot at `i` was removed.
spec fn shift_for(found: Option<int>, j: int) -> int {
    match found {
        Option::Some(i) => if j < i {
            j
        } else {
            j + 1
        },
        Option::None => j,
    }
}

/// Removing the stale slot (when the key already had one) and pushing a
/// slot for the new surviving row keeps the index matching the rows.
proof fn lemma_index_ok_update(
    idx0: Seq<IndexEntry>,
    recs0: Seq<RecView>,
    recs1: Seq<RecView>,
    found: Option<int>,
    e: IndexEntry,
    r: RecView,
)
    requires
        index_ok(idx0, recs0),
        entry_map(recs1) == entry_map(recs0).insert(e.key@, r),
        r.off == e.offset as int,
        r.total == e.total as int,
        match found {
            Option::Some(i) => 0 <= i < idx0.len() && idx0[i].key@ == e.key@,
            Option::None => forall|j: int| 0 <= j < idx0.len() ==> idx0[j].key@ != e.key@,
        },
    ensures
        index_ok(
            (match found {
                Option::Some(i) => idx0.remove(i),
                Option::None => idx0,
            }).push(e),
            recs1,
        ),
{
    let m0 = entry_map(recs0);
    let m1 = entry_map(recs1);
    let idx1 = match found {
        Option::Some(i) => idx0.remove(i),
        Option::None => idx0,
    };
    let idx2 = idx1.push(e);
    assert forall|j: int| 0 <= j < idx1.len() implies #[trigger] idx1[j] == idx0[
        shift_for(found, j)
    ] && 0 <= shift_for(found, j) < idx0.len() && (found matches Some(i) ==> shift_for(found, j)
        != i) by {
        match found {
            Option::Some(i) => {
                if j < i {
                    assert(idx1[j] == idx0[j]);
                } else {
                    assert(idx1[j] == idx0[j + 1]);
                }
            },
            Option::None => {},
        }
    }
    assert forall|j: int| 0 <= j < idx1.len() implies #[trigger] idx1[j].key@ != e.key@ by {
        let j0 = shift_for(found, j);
        assert(idx1[j] == idx0[j0]);
        match found {
            Option::Some(i) => {
                if idx0[j0].key@ == e.key@ {
                    if j0 < i {
                        assert(idx0[j0].key@ != idx0[i].key@);
                    } else {
                        assert(idx0[i].key@ != idx0[j0].key@);
                    }
                }
            },
            Option::None => {},
        }
    }
    // Distinct keys.
    assert forall|a: int, b: int| 0 <= a < b < idx2.len() implies idx2[a].key@ != idx2[b].key@ by {
        if b < idx1.len() {
            match found {
                Option::Some(i) => {
                    let a1: int = if a < i {
                        a
                    } else {
                        a + 1
                    };
                    let b1: int = if b < i {
                        b
                    } else {
                        b + 1
                    };
                    assert(idx1[a] == idx0[a1]);
                    assert(idx1[b] == idx0[b1]);
                    assert(a1 < b1);
                },
                Option::None => {},
            }
        }
    }
    // Every slot points at the surviving row of its key.
    assert forall|j: int| 0 <= j < idx2.len() implies {
        &&& #[trigger] m1.contains_key(idx2[j].key@)
        &&& m1[idx2[j].key@].off == idx2[j].offset as int
        &&& m1[idx2[j].key@].total == idx2[j].total as int
    } by {
        if j < idx1.len() {
            assert(idx1[j].key@ != e.key@);
            assert(m1[idx1[j].key@] == m0[idx1[j].key@]);
        } else {
            assert(idx2[j] == e);
            assert(m1[e.key@] == r);
        }
    }
    // Every surviving key has a slot.
    assert forall|k: Seq<char>| #[trigger] m1.contains_key(k) implies exists|j: int|
        0 <= j < idx2.len() && #[trigger] idx2[j].key@ == k by {
        if k == e.key@ {
            assert(idx2[idx1.len() as int].key@ == k);
        } else {
            assert(m0.contains_key(k));
            let j0 = choose|j0: int| 0 <= j0 < idx0.len() && #[trigger] idx0[j0].key@ == k;
            match found {
                Option::Some(i) => {
                    let j1: int = if j0 < i {
                        j0
                    } else {
                        j0 - 1
                    };
                    assert(j0 != i);
                    assert(idx2[j1].key@ == k);
                },
                Option::None => {
                    assert(idx2[j0].key@ == k);
                },
            }
        }
    }
}

/// Looks the key up in the index.
fn find_index(index: &Vec<IndexEntry>, key: &String) -> (r: Option<usize>)
    ensures
        r matches Some(i) ==> i < index@.len() && index@[i as int].key@ == key@,
        r is None ==> forall|i: int| 0 <= i < index@.len() ==> index@[i].key@ != key@,
{
    let mut i: usize = 0;
    while i < index.len()
        invariant
            i <= index@.len(),
            forall|j: int| 0 <= j < i ==> index@[j].key@ != key@,
        decreases index@.len() - i,
    {
        if index[i].key.eq(key) {
            return Some(i);
        }
        i = i + 1;
    }
    None
}

impl VelesStore {
    /// Opens a store over the given log bytes: replays every row from
    /// the front, checking each checksum, and rebuilds the key index.
    /// Succeeds exactly when the whole log parses and every row holds
    /// UTF-8 text; a truncated row or a bad checksum is corruption, a
    /// non-text row is a serialization failure.
    pub fn new(log: Vec<u8>) -> (r: Result<VelesStore, VelesError>)
        ensures
            r is Ok <==> (parse_log_from(log@, 0) matches Some(recs) && recs_wf(recs)),
            r matches Ok(s) ==> s.wf() && s.log() == log@ && s@ == log_view(log@),
            parse_log_from(log@, 0) is None ==> r == Err::<VelesStore, VelesError>(
                VelesError::CorruptedData,
            ),
            (parse_log_from(log@, 0) matches Some(recs) && !recs_wf(recs)) ==> r == Err::<
                VelesStore,
                VelesError,
            >(VelesError::SerializationError),
    {
        let len: usize = log.len();
        let mut index: Vec<IndexEntry> = Vec::new();
        let mut pos: usize = 0;
        let mut bad_text: bool = false;
        let ghost mut done: Seq<RecView> = Seq::empty();
        while pos < len
            invariant
                len == log@.len(),
                pos <= len,
                match parse_log_from(log@, pos as int) {
                    Option::Some(rest) => parse_log_from(log@, 0) == Some(done + rest),
                    Option::None => parse_log_from(log@, 0) is None,
                },
                !bad_text ==> recs_wf(done),
                !bad_text ==> index_ok(index@, done),
                !bad_text ==> index_total(index@) <= pos as int,
                bad_text ==> exists|j: int| 0 <= j < done.len() && !rec_wf(#[trigger] done[j]),
            decreases len - pos,
        {
            // A whole header must be left.
            if len - pos < 20 {
                assert(parse_record_at(log@, pos as int) is None);
                return Err(VelesError::CorruptedData);
            }
            let stored_crc: u32 = read_u32_be(log.as_slice(), pos);
            let ts: u32 = read_u32_be(log.as_slice(), pos + 4);
            let ks: u32 = read_u32_be(log.as_slice(), pos + 8);
            let vs: u32 = read_u32_be(log.as_slice(), pos + 12);
            let total64: u64 = 20u64 + ks as u64 + vs as u64;
            // The declared sizes must fit in what is left of the log.
            if total64 > (len - pos) as u64 {
                assert(parse_record_at(log@, pos as int) is None);
                return Err(VelesError::CorruptedData);
            }
            let total: usize = total64 as usize;
            // The stored checksum must match one recomputed over
            // header, key and value.
            let data_slice: &[u8] = slice_subrange(log.as_slice(), pos + 4, pos + total);
            let crc: u32 = crc32(data_slice);
            if crc != stored_crc {
                assert(parse_record_at(log@, pos as int) is None);
                return Err(VelesError::CorruptedData);
            }
            let ghost r = RecView {
                ts,
                key: log@.subrange(pos + 20, pos + 20 + ks as int),
                value: log@.subrange(pos + 20 + ks as int, pos + total as int),
                off: pos as int,
                total: total as int,
            };
            assert(parse_record_at(log@, pos as int) == Some(r));
            let ghost prev_done = done;
            if !bad_text {
                // Key and value must both decode as text.
                let key_slice: &[u8] = slice_subrange(
                    log.as_slice(),
                    pos + 20,
                    pos + 20 + ks as usize,
                );
                let value_slice: &[u8] = slice_subrange(
                    log.as_slice(),
                    pos + 20 + ks as usize,
                    pos + total,
                );
                let key_opt: Option<String> = bytes_to_string(slice_to_vec(key_slice));
                let value_opt: Option<String> = bytes_to_string(slice_to_vec(value_slice));
                if key_opt.is_some() && value_opt.is_some() {
                    // Record or overwrite the slot for this key.
                    let new_entry = IndexEntry { key: key_opt.unwrap(), offset: pos, total };
                    let ghost e = new_entry;
                    let ghost idx0 = index@;
                    let found = find_index(&index, &new_entry.key);
                    let ghost found_g = match found {
                        Option::Some(i) => Some(i as int),
                        Option::None => None::<int>,
                    };
                    match found {
                        Option::Some(i) => {
                            proof {
                                lemma_index_total_remove(index@, i as int);
                            }
                            index.remove(i);
                        },
                        Option::None => (),
                    }
                    proof {
                        lemma_index_total_push(index@, e);
                    }
                    index.push(new_entry);
                    proof {
                        done = done.push(r);
                        assert(done.drop_last() =~= prev_done);
                        assert(done.last() == r);
                        assert(entry_map(done) == entry_map(prev_done).insert(
                            decode_utf8(r.key),
                            r,
                        ));
                        assert(e.key@ == decode_utf8(r.key));
                        lemma_index_ok_update(idx0, prev_done, done, found_g, e, r);
                    }
                } else {
                    // A non-text row: remember it and keep checking the
                    // rest of the log's checksums.
                    bad_text = true;
                    proof {
                        done = done.push(r);
                        assert(!rec_wf(r));
                        assert(done[done.len() - 1] == r);
                    }
                }
            } else {
                proof {
                    let j = choose|j: int| 0 <= j < prev_done.len() && !rec_wf(#[trigger] prev_done[j]);
                    done = done.push(r);
                    assert(done[j] == prev_done[j]);
                }
            }
            proof {
                let rest = parse_log_from(log@, pos as int)->Some_0;
                if parse_log_from(log@, pos + r.total) is Some {
                    let rest2 = parse_log_from(log@, pos + r.total)->Some_0;
                    assert(rest == seq![r] + rest2);
                    assert(done + rest2 =~= prev_done + rest);
                }
            }
            pos = pos + total;
        }
        assert(parse_log_from(log@, pos as int) == Some(Seq::<RecView>::empty()));
        assert(done + Seq::<RecView>::empty() =~= done);
        if bad_text {
            return Err(VelesError::SerializationError);
        }
        let store = VelesStore { log, index };
        assert(store.recs() == done);
        Ok(store)
    }
}

/// A row that parses inside `log` parses the same after bytes are
/// appended to the log.
pub proof fn lemma_parse_record_extend(log: Seq<u8>, ext: Seq<u8>, pos: int)
    requires
        parse_record_at(log, pos) is Some,
    ensures
        parse_record_at(log + ext, pos) == parse_record_at(log, pos),
{
    let full = log + ext;
    let r = parse_record_at(log, pos)->Some_0;
    assert(full.subrange(pos, pos + 4) =~= log.subrange(pos, pos + 4));
    assert(full.subrange(pos + 4, pos + 8) =~= log.subrange(pos + 4, pos + 8));
    assert(full.subrange(pos + 8, pos + 12) =~= log.subrange(pos + 8, pos + 12));
    assert(full.subrange(pos + 12, pos + 16) =~= log.subrange(pos + 12, pos + 16));
    assert(full.subrange(pos + 4, pos + r.total) =~= log.subrange(pos + 4, pos + r.total));
    let ks = u32_from_be_bytes(log.subrange(pos + 8, pos + 12)) as int;
    assert(full.subrange(pos + 20, pos + 20 + ks) =~= log.subrange(pos + 20, pos + 20 + ks));
    assert(full.subrange(pos + 20 + ks, pos + r.total) =~= log.subrange(
        pos + 20 + ks,
        pos + r.total,
    ));
}

/// Appending the bytes of one new row to a log that parses extends the
/// parse by exactly that row.
pub proof fn lemma_parse_append(
    log: Seq<u8>,
    pos: int,
    recs: Seq<RecView>,
    ts: u32,
    key: Seq<u8>,
    value: Seq<u8>,
)
    requires
        0 <= pos,
        parse_log_from(log, pos) == Some(recs),
        key.len() <= u32::MAX,
        value.len() <= u32::MAX,
    ensures
        parse_log_from(log + record_bytes(ts, key, value), pos) == Some(
            recs.push(
                RecView {
                    ts,
                    key,
                    value,
                    off: log.len() as int,
                    total: record_size(key, value),
                },
            ),
        ),
    decreases log.len() - pos,
{
    let rb = record_bytes(ts, key, value);
    let full = log + rb;
    let n = record_size(key, value);
    let r_new = RecView { ts, key, value, off: log.len() as int, total: n };
    if pos == log.len() {
        assert(full.subrange(pos, pos + n) =~= rb);
        lemma_parse_record_bytes(full, pos, ts, key, value);
        assert(parse_log_from(full, pos + n) == Some(Seq::<RecView>::empty()));
        assert(seq![r_new] + Seq::<RecView>::empty() =~= recs.push(r_new));
    } else {
        let r = parse_record_at(log, pos)->Some_0;
        let rest = parse_log_from(log, pos + r.total)->Some_0;
        lemma_parse_record_extend(log, rb, pos);
        lemma_parse_append(log, pos + r.total, rest, ts, key, value);
        assert(seq![r] + rest.push(r_new) =~= (seq![r] + rest).push(r_new));
        assert(recs == seq![r] + rest);
    }
}

/// Appending one row updates the key/value mapping of the rows by one
/// last-write-wins insertion.
pub proof fn lemma_kv_map_push(recs: Seq<RecView>, r: RecView)
    ensures
        kv_map(recs.push(r)) == kv_map(recs).insert(decode_utf8(r.key), decode_utf8(r.value)),
{
    assert(recs.push(r).drop_last() =~= recs);
    assert(recs.push(r).last() == r);
    assert(entry_map(recs.push(r)) == entry_map(recs).insert(decode_utf8(r.key), r));
    assert(kv_map(recs.push(r)) =~= kv_map(recs).insert(decode_utf8(r.key), decode_utf8(r.value)));
}

impl VelesStore {
    /// Reads the value stored for `key`: seeks to the indexed row,
    /// re-verifies its checksum, and decodes the value. Succeeds exactly
    /// when the store holds the key.
    pub fn get(&self, key: &str) -> (r: Result<String, VelesError>)
        requires
            self.wf(),
        ensures
            r is Ok <==> self@.contains_key(key@),
            r matches Ok(v) ==> v@ == self@[key@],
            r matches Err(e) ==> e == VelesError::NotFound,
    {
        let key_owned: String = key.to_owned();
        let ghost recs = self.recs();
        match find_index(&self.index, &key_owned) {
            Option::None => {
                proof {
                    if entry_map(recs).contains_key(key@) {
                        let i = choose|i: int|
                            0 <= i < self.index@.len() && #[trigger] self.index@[i].key@ == key@;
                        assert(false);
                    }
                    assert(!self@.contains_key(key@));
                }
                Err(VelesError::NotFound)
            },
            Option::Some(i) => {
                let log_len: usize = self.log.len();
                let offset: usize = self.index[i].offset;
                let total: usize = self.index[i].total;
                let ghost rec = entry_map(recs)[key@];
                proof {
                    assert(self.index@[i as int].key@ == key@);
                    assert(entry_map(recs).contains_key(key@));
                    assert(rec.off == offset as int && rec.total == total as int);
                    lemma_parse_log_records(self.log@, 0, recs);
                    lemma_entry_map_in_recs(recs, key@);
                    let w = choose|w: int| 0 <= w < recs.len() && recs[w] == entry_map(recs)[key@];
                    assert(rec_wf(recs[w]));
                    assert(recs[w] == rec);
                    assert(parse_record_at(self.log@, recs[w].off) == Some(recs[w]));
                    assert(parse_record_at(self.log@, rec.off) == Some(rec));
                    assert(offset + total <= log_len);
                    assert(self@[key@] == decode_utf8(rec.value));
                }
                // Re-verify the checksum before trusting the row.
                let stored_crc: u32 = read_u32_be(self.log.as_slice(), offset);
                let data_slice: &[u8] = slice_subrange(
                    self.log.as_slice(),
                    offset + 4,
                    offset + total,
                );
                let crc: u32 = crc32(data_slice);
                if crc != stored_crc {
                    return Err(VelesError::NotFound);
                }
                let ks: u32 = read_u32_be(self.log.as_slice(), offset + 8);
                let value_slice: &[u8] = slice_subrange(
                    self.log.as_slice(),
                    offset + 20 + ks as usize,
                    offset + total,
                );
                match bytes_to_string(slice_to_vec(value_slice)) {
                    Option::Some(s) => Ok(s),
                    Option::None => Err(VelesError::NotFound),
                }
            },
        }
    }

    /// Appends one row holding `key` and `value`, stamped `timestamp`,
    /// and updates the index slot for the key. The mapping gains exactly
    /// this pair; the log grows by exactly this row's bytes.
    pub fn put(&mut self, key: &str, value: &str, timestamp: u32) -> (r: Result<(), VelesError>)
        requires
            old(self).wf(),
            encode_utf8(key@).len() <= u32::MAX,
            encode_utf8(value@).len() <= u32::MAX,
        ensures
            r is Ok,
            final(self).wf(),
            final(self)@ == old(self)@.insert(key@, value@),
            final(self)@ == log_view(final(self).log()),
            parse_log_from(final(self).log(), 0) == Some(final(self).recs()),
            recs_wf(final(self).recs()),
            final(self).log() == old(self).log() + record_bytes(
                timestamp,
                encode_utf8(key@),
                encode_utf8(value@),
            ),
            final(self).recs() == old(self).recs().push(
                RecView {
                    ts: timestamp,
                    key: encode_utf8(key@),
                    value: encode_utf8(value@),
                    off: old(self).log().len() as int,
                    total: record_size(encode_utf8(key@), encode_utf8(value@)),
                },
            ),
    {
        let kb: &[u8] = key.as_bytes();
        let vb: &[u8] = value.as_bytes();
        let mut row = encode_record(timestamp, kb, vb);
        let offset: usize = self.log.len();
        let total: usize = row.len();
        let ghost recs0 = self.recs();
        let ghost r = RecView {
            ts: timestamp,
            key: kb@,
            value: vb@,
            off: offset as int,
            total: total as int,
        };
        proof {
            lemma_parse_append(self.log@, 0, recs0, timestamp, kb@, vb@);
        }
        self.log.append(&mut row);
        let ghost recs1 = recs0.push(r);
        let new_entry = IndexEntry { key: key.to_owned(), offset, total };
        let ghost e = new_entry;
        let ghost idx0 = self.index@;
        let found = find_index(&self.index, &new_entry.key);
        let ghost found_g = match found {
            Option::Some(i) => Some(i as int),
            Option::None => None::<int>,
        };
        match found {
            Option::Some(i) => {
                proof {
                    lemma_index_total_remove(self.index@, i as int);
                }
                self.index.remove(i);
            },
            Option::None => (),
        }
        proof {
            lemma_index_total_push(self.index@, e);
        }
        self.index.push(new_entry);
        proof {
            assert(recs1.drop_last() =~= recs0);
            assert(recs1.last() == r);
            assert(entry_map(recs1) == entry_map(recs0).insert(decode_utf8(r.key), r));
            assert(e.key@ == decode_utf8(r.key));
            lemma_index_ok_update(idx0, recs0, recs1, found_g, e, r);
            lemma_kv_map_push(recs0, r);
            assert(self@ =~= old(self)@.insert(key@, value@));
        }
        Ok(())
    }

    /// Rewrites the log so it holds exactly one row per live key, each
    /// stamped `timestamp`, dropping every overwritten row. Every key
    /// reads back unchanged, the log never grows, and the rewritten log
    /// opens again: it parses whole into text rows with no two rows
    /// sharing a key, every row a live key.
    pub fn compact(&mut self, timestamp: u32) -> (r: Result<(), VelesError>)
        requires
            old(self).wf(),
        ensures
            r is Ok,
            final(self).wf(),
            final(self)@ == old(self)@,
            final(self).log().len() <= old(self).log().len(),
            parse_log_from(final(self).log(), 0) == Some(final(self).recs()),
            recs_wf(final(self).recs()),
            final(self)@ == log_view(final(self).log()),
            forall|a: int, b: int|
                0 <= a < b < final(self).recs().len() ==> decode_utf8(final(self).recs()[a].key)
                    != decode_utf8(final(self).recs()[b].key),
            forall|a: int|
                0 <= a < final(self).recs().len() ==> (#[trigger] final(self).recs()[a]).ts
                    == timestamp,
            forall|a: int|
                0 <= a < final(self).recs().len() ==> final(self)@.contains_key(
                    decode_utf8(#[trigger] final(self).recs()[a].key),
                ),
    {
        let mut fresh = VelesStore { log: Vec::new(), index: Vec::new() };
        proof {
            assert(parse_log_from(fresh.log@, 0) == Some(Seq::<RecView>::empty()));
            assert(fresh.wf());
        }
        let n: usize = self.index.len();
        let ghost recs = self.recs();
        let ghost m = entry_map(recs);
        proof {
            lemma_parse_log_records(self.log@, 0, recs);
        }
        let mut i: usize = 0;
        while i < n
            invariant
                self.wf(),
                *self == *old(self),
                fresh.wf(),
                i <= n,
                n == self.index@.len(),
                recs == self.recs(),
                m == entry_map(recs),
                fresh.log@.len() == index_total(self.index@.take(i as int)),
                fresh.recs().len() == i,
                forall|j: int| 0 <= j < i ==> (#[trigger] fresh.recs()[j]).ts == timestamp,
                forall|j: int|
                    0 <= j < i ==> decode_utf8(#[trigger] fresh.recs()[j].key)
                        == self.index@[j].key@,
                forall|j: int|
                    0 <= j < i ==> #[trigger] fresh@.contains_key(self.index@[j].key@)
                        && fresh@[self.index@[j].key@] == self@[self.index@[j].key@],
                forall|k: Seq<char>|
                    #[trigger] fresh@.contains_key(k) ==> exists|j: int|
                        0 <= j < i && #[trigger] self.index@[j].key@ == k,
            decreases n - i,
        {
            let entry_key: String = self.index[i].key.clone();
            let ghost rec = m[entry_key@];
            proof {
                assert(m.contains_key(self.index@[i as int].key@));
                lemma_parse_log_records(self.log@, 0, recs);
                lemma_entry_map_in_recs(recs, entry_key@);
                let w = choose|w: int| 0 <= w < recs.len() && recs[w] == entry_map(recs)[entry_key@];
                assert(rec_wf(recs[w]));
                assert(recs[w] == rec);
                assert(parse_record_at(self.log@, recs[w].off) == Some(recs[w]));
                assert(decode_utf8(rec.key) == entry_key@);
                assert(encode_utf8(entry_key@) == rec.key);
            }
            let value: String = match self.get(entry_key.as_str()) {
                Result::Ok(v) => v,
                Result::Err(e) => {
                    return Err(e);
                },
            };
            proof {
                assert(value@ == decode_utf8(rec.value));
                assert(encode_utf8(value@) == rec.value);
                assert(self.index@.take(i + 1).drop_last() =~= self.index@.take(i as int));
                assert(self.index@.take(i + 1).last() == self.index@[i as int]);
            }
            let ghost fresh_recs0 = fresh.recs();
            let res = fresh.put(entry_key.as_str(), value.as_str(), timestamp);
            proof {
                assert(res is Ok);
                assert(fresh.recs().last().ts == timestamp);
                assert(decode_utf8(fresh.recs().last().key) == entry_key@);
                assert forall|j: int| 0 <= j < i implies (#[trigger] fresh.recs()[j])
                    == fresh_recs0[j] by {}
            }
            i = i + 1;
        }
        proof {
            assert(self.index@.take(n as int) =~= self.index@);
            assert forall|k: Seq<char>| #[trigger] self@.contains_key(k) implies fresh@.contains_key(
                k,
            ) && fresh@[k] == self@[k] by {
                assert(m.contains_key(k));
                let j = choose|j: int|
                    0 <= j < self.index@.len() && #[trigger] self.index@[j].key@ == k;
                assert(fresh@.contains_key(self.index@[j].key@));
            }
            assert forall|k: Seq<char>| #[trigger] fresh@.contains_key(k) implies self@.contains_key(
                k,
            ) by {
                let j = choose|j: int| 0 <= j < n && #[trigger] self.index@[j].key@ == k;
                assert(m.contains_key(self.index@[j].key@));
            }
            assert(fresh@ =~= self@);
            assert forall|a: int, b: int|
                0 <= a < b < fresh.recs().len() implies decode_utf8(fresh.recs()[a].key)
                != decode_utf8(fresh.recs()[b].key) by {
                assert(decode_utf8(fresh.recs()[a].key) == self.index@[a].key@);
                assert(decode_utf8(fresh.recs()[b].key) == self.index@[b].key@);
            }
            assert forall|a: int| 0 <= a < fresh.recs().len() implies fresh@.contains_key(
                decode_utf8(#[trigger] fresh.recs()[a].key),
            ) by {
                assert(fresh@.contains_key(self.index@[a].key@));
            }
            assert(parse_log_from(fresh.log@, 0) == Some(fresh.recs()));
            assert(recs_wf(fresh.recs()));
            assert(fresh@ == log_view(fresh.log@));
        }
        *self = fresh;
        Ok(())
    }
}

/// Round trip across a reopen: appending the row that `put` writes for a
/// key/value pair to a well-formed log gives a log that still opens, and
/// whose mapping is the old one with exactly that pair inserted, so a
/// later `get` of the key returns the value.
pub proof fn lemma_put_reopen_roundtrip(
    log: Seq<u8>,
    recs: Seq<RecView>,
    ts: u32,
    key: Seq<char>,
    value: Seq<char>,
)
    requires
        parse_log_from(log, 0) == Some(recs),
        recs_wf(recs),
        encode_utf8(key).len() <= u32::MAX,
        encode_utf8(value).len() <= u32::MAX,
    ensures
        ({
            let log2 = log + record_bytes(ts, encode_utf8(key), encode_utf8(value));
            &&& parse_log_from(log2, 0) matches Some(recs2) && recs_wf(recs2)
            &&& log_view(log2) == log_view(log).insert(key, value)
        }),
{
    let kb = encode_utf8(key);
    let vb = encode_utf8(value);
    let r = RecView {
        ts,
        key: kb,
        value: vb,
        off: log.len() as int,
        total: record_size(kb, vb),
    };
    lemma_parse_append(log, 0, recs, ts, kb, vb);
    let recs2 = recs.push(r);
    assert forall|i: int| 0 <= i < recs2.len() implies #[trigger] rec_wf(recs2[i]) by {
        if i < recs.len() {
            assert(recs2[i] == recs[i]);
        } else {
            assert(recs2[i] == r);
        }
    }
    lemma_kv_map_push(recs, r);
}


} // verus!
