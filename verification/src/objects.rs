//! Content-addressed object store.
//!
//! An object is addressed by the SHA-256 digest of its uncompressed
//! bytes, hex-encoded and truncated to 40 characters; its stored body is
//! the gzip-compressed bytes. Objects are immutable and write-once:
//! storing content whose id is already present is a no-op.

use vstd::prelude::*;

verus! {

use crate::error::VelesError;
use vstd::string::StrSliceExecFns;

/// The SHA-256 digest of `data`, as `ring` computes it. The digest is a
/// function of the bytes alone.
pub uninterp spec fn sha256_of(data: Seq<u8>) -> Seq<u8>;

/// Relies on `ring::digest::digest` with `SHA256`: the 32-byte SHA-256
/// digest of the input, a pure function of the bytes. The call aborts
/// only on inputs beyond the hash's own input limit of about 2^61
/// bytes, far past what a byte slice in memory can hold.
#[verifier::external_body]
pub(crate) fn sha256(data: &[u8]) -> (r: Vec<u8>)
    ensures
        r@ == sha256_of(data@),
        r@.len() == 32,
{
    ring::digest::digest(&ring::digest::SHA256, data).as_ref().to_vec()
}

/// The lower-case hex digit for a value below 16.
pub open spec fn hex_digit(n: u8) -> char
    recommends
        n < 16,
{
    if n < 10 {
        (0x30 + n) as char
    } else {
        (0x57 + n) as char
    }
}

/// Lower-case hex encoding: two digits per byte, high nibble first.
pub open spec fn spec_hex(bytes: Seq<u8>) -> Seq<char> {
    Seq::new(
        bytes.len() * 2,
        |i: int|
            if i % 2 == 0 {
                hex_digit(bytes[i / 2] >> 4)
            } else {
                hex_digit(bytes[i / 2] & 0xf)
            },
    )
}

/// Relies on `hex::encode`: the lower-case hex text of the bytes, two
/// digits per byte, high nibble first.
#[verifier::external_body]
pub(crate) fn to_hex(data: &[u8]) -> (r: String)
    ensures
        r@ == spec_hex(data@),
{
    hex::encode(data)
}

/// What gzip decompression returns on these bytes: the original content
/// for a stream a gzip compressor produced, nothing for a malformed one.
/// Decompression is a function of the bytes alone.
pub uninterp spec fn gunzip_of(data: Seq<u8>) -> Option<Seq<u8>>;

/// Relies on `flate2::write::GzEncoder` over a `Vec<u8>` sink, whose
/// writes cannot fail: compressing and then decompressing gives the
/// input back.
#[verifier::external_body]
pub(crate) fn gzip_compress(data: &[u8]) -> (r: Vec<u8>)
    ensures
        gunzip_of(r@) == Some(data@),
{
    let mut enc = flate2::write::GzEncoder::new(Vec::new(), flate2::Compression::default());
    std::io::Write::write_all(&mut enc, data).expect("writing to a Vec cannot fail");
    enc.finish().expect("finishing into a Vec cannot fail")
}

/// Relies on `flate2::read::GzDecoder`: decompression recovers exactly
/// what the compressor was fed, and rejects a malformed stream.
#[verifier::external_body]
pub(crate) fn gzip_decompress(data: &[u8]) -> (r: Result<Vec<u8>, VelesError>)
    ensures
        r matches Ok(v) ==> gunzip_of(data@) == Some(v@),
        r is Err ==> gunzip_of(data@) is None,
        r matches Err(e) ==> e == VelesError::SerializationError,
{
    let mut dec = flate2::read::GzDecoder::new(data);
    let mut buf = Vec::new();
    match std::io::Read::read_to_end(&mut dec, &mut buf) {
        Result::Ok(_) => Ok(buf),
        Result::Err(_) => Err(VelesError::SerializationError),
    }
}

/// The 40-character object id of some content: the first 40 hex digits
/// of its SHA-256 digest.
pub open spec fn object_id(content: Seq<u8>) -> Seq<char> {
    spec_hex(sha256_of(content)).take(40)
}

/// The store after content is written: unchanged when its id is already
/// present, else grown by exactly that object.
pub open spec fn store_after_put(
    v: Map<Seq<char>, Seq<u8>>,
    c: Seq<u8>,
) -> Map<Seq<char>, Seq<u8>> {
    if v.contains_key(object_id(c)) {
        v
    } else {
        v.insert(object_id(c), c)
    }
}

/// Idempotent object writes: writing the same content twice leaves the
/// store exactly as one write does, and both writes name the same id.
pub proof fn lemma_object_write_idempotent(v: Map<Seq<char>, Seq<u8>>, c: Seq<u8>)
    ensures
        store_after_put(store_after_put(v, c), c) == store_after_put(v, c),
{
}

/// Content addressing: the id is a function of the content, so two
/// objects stored under different ids never hold identical bytes.
pub proof fn lemma_content_addressing(c1: Seq<u8>, c2: Seq<u8>)
    ensures
        c1 == c2 ==> object_id(c1) == object_id(c2),
        object_id(c1) != object_id(c2) ==> c1 != c2,
{
}

/// One stored object: its 40-character id and its compressed body.
struct StoredObject {
    id: String,
    data: Vec<u8>,
}

/// The uncompressed content a stored object holds.
spec fn stored_content(o: StoredObject) -> Seq<u8> {
    match gunzip_of(o.data@) {
        Option::Some(c) => c,
        Option::None => Seq::empty(),
    }
}

/// A stored object decompresses, and its id addresses its content.
spec fn obj_wf(o: StoredObject) -> bool {
    &&& gunzip_of(o.data@) is Some
    &&& o.id@ == object_id(stored_content(o))
}

/// The id-to-content mapping a list of stored objects describes.
spec fn obj_map(s: Seq<StoredObject>) -> Map<Seq<char>, Seq<u8>>
    decreases s.len(),
{
    if s.len() == 0 {
        Map::empty()
    } else {
        obj_map(s.drop_last()).insert(s.last().id@, stored_content(s.last()))
    }
}

/// A key is in the mapping exactly when some object carries it.
proof fn lemma_obj_map_dom(s: Seq<StoredObject>, k: Seq<char>)
    ensures
        obj_map(s).contains_key(k) <==> exists|i: int|
            0 <= i < s.len() && #[trigger] s[i].id@ == k,
    decreases s.len(),
{
    if s.len() > 0 {
        lemma_obj_map_dom(s.drop_last(), k);
        if s.last().id@ == k {
            assert(s[s.len() - 1].id@ == k);
        } else if obj_map(s).contains_key(k) {
            let i = choose|i: int| 0 <= i < s.len() - 1 && #[trigger] s.drop_last()[i].id@ == k;
            assert(s[i].id@ == k);
        } else if exists|i: int| 0 <= i < s.len() && #[trigger] s[i].id@ == k {
            let i = choose|i: int| 0 <= i < s.len() && #[trigger] s[i].id@ == k;
            assert(s.drop_last()[i].id@ == k);
        }
    }
}

/// With distinct ids, the mapping sends each object's id to its content.
proof fn lemma_obj_map_at(s: Seq<StoredObject>, i: int)
    requires
        0 <= i < s.len(),
        forall|a: int, b: int| 0 <= a < b < s.len() ==> s[a].id@ != s[b].id@,
    ensures
        obj_map(s).contains_key(s[i].id@),
        obj_map(s)[s[i].id@] == stored_content(s[i]),
    decreases s.len(),
{
    if i == s.len() - 1 {
    } else {
        lemma_obj_map_at(s.drop_last(), i);
        assert(s.drop_last()[i] == s[i]);
        assert(s[i].id@ != s[s.len() - 1].id@);
    }
}

/// Content-addressed object store, keyed by 40-character hex ids.
pub struct ObjectStore {
    objects: Vec<StoredObject>,
}

impl View for ObjectStore {
    type V = Map<Seq<char>, Seq<u8>>;

    closed spec fn view(&self) -> Map<Seq<char>, Seq<u8>> {
        obj_map(self.objects@)
    }
}

/// Looks an id up among the stored objects.
fn find_object(objects: &Vec<StoredObject>, id: &String) -> (r: Option<usize>)
    ensures
        r matches Some(i) ==> i < objects@.len() && objects@[i as int].id@ == id@,
        r is None ==> forall|i: int| 0 <= i < objects@.len() ==> objects@[i].id@ != id@,
{
    let mut i: usize = 0;
    while i < objects.len()
        invariant
            i <= objects@.len(),
            forall|j: int| 0 <= j < i ==> objects@[j].id@ != id@,
        decreases objects@.len() - i,
    {
        if objects[i].id.eq(id) {
            return Some(i);
        }
        i = i + 1;
    }
    None
}

impl ObjectStore {
    /// Every stored object is sound and no id repeats.
    pub closed spec fn wf(&self) -> bool {
        &&& forall|i: int| 0 <= i < self.objects@.len() ==> #[trigger] obj_wf(self.objects@[i])
        &&& forall|a: int, b: int|
            0 <= a < b < self.objects@.len() ==> self.objects@[a].id@ != self.objects@[b].id@
    }

    /// How many objects the store holds.
    pub closed spec fn count(&self) -> int {
        self.objects@.len() as int
    }

    /// How many objects are stored.
    pub fn object_count(&self) -> (r: usize)
        ensures
            r as int == self.count(),
    {
        self.objects.len()
    }

    /// An empty object store.
    pub fn new() -> (r: ObjectStore)
        ensures
            r.wf(),
            r@ == Map::<Seq<char>, Seq<u8>>::empty(),
            r.count() == 0,
    {
        ObjectStore { objects: Vec::new() }
    }

    /// Stores `content` under its 40-character id: digests, compresses
    /// and keeps the body, unless an object with that id already exists,
    /// in which case nothing is written.
    pub fn put_object(&mut self, content: &[u8]) -> (id: String)
        requires
            old(self).wf(),
        ensures
            final(self).wf(),
            id@ == object_id(content@),
            id@.len() == 40,
            final(self)@ == store_after_put(old(self)@, content@),
            final(self)@.contains_key(id@),
            old(self)@.contains_key(id@) ==> *final(self) == *old(self),
            !old(self)@.contains_key(id@) ==> final(self).count() == old(self).count() + 1
                && final(self)@[id@] == content@,
    {
        let digest: Vec<u8> = sha256(content);
        let hex_text: String = to_hex(digest.as_slice());
        proof {
            assert(hex_text@.len() == 64);
        }
        let id: String = hex_text.as_str().substring_char(0, 40).to_owned();
        proof {
            assert(id@ =~= object_id(content@));
        }
        match find_object(&self.objects, &id) {
            Option::Some(i) => {
                proof {
                    lemma_obj_map_dom(self.objects@, id@);
                    lemma_obj_map_at(self.objects@, i as int);
                }
                id
            },
            Option::None => {
                proof {
                    lemma_obj_map_dom(self.objects@, id@);
                }
                let zipped: Vec<u8> = gzip_compress(content);
                let entry = StoredObject { id: id.clone(), data: zipped };
                let ghost s0 = self.objects@;
                proof {
                    assert(stored_content(entry) == content@);
                    assert(obj_wf(entry));
                }
                self.objects.push(entry);
                proof {
                    assert(self.objects@.drop_last() =~= s0);
                    assert forall|i: int| 0 <= i < self.objects@.len() implies #[trigger] obj_wf(
                        self.objects@[i],
                    ) by {
                        if i < s0.len() {
                            assert(self.objects@[i] == s0[i]);
                        }
                    }
                    assert forall|a: int, b: int|
                        0 <= a < b < self.objects@.len() implies self.objects@[a].id@
                        != self.objects@[b].id@ by {
                        if b < s0.len() {
                            assert(self.objects@[a] == s0[a] && self.objects@[b] == s0[b]);
                        } else {
                            assert(self.objects@[a] == s0[a]);
                        }
                    }
                }
                id
            },
        }
    }

    /// Reads an object back: looks its id up and decompresses the body.
    /// Succeeds exactly when the store holds the id.
    pub fn get_object(&self, hash: &str) -> (r: Result<Vec<u8>, VelesError>)
        requires
            self.wf(),
        ensures
            r is Ok <==> self@.contains_key(hash@),
            r matches Ok(v) ==> v@ == self@[hash@],
            r matches Err(e) ==> e == VelesError::NotFound,
    {
        let hash_owned: String = hash.to_owned();
        proof {
            lemma_obj_map_dom(self.objects@, hash@);
        }
        match find_object(&self.objects, &hash_owned) {
            Option::None => Err(VelesError::NotFound),
            Option::Some(i) => {
                proof {
                    lemma_obj_map_at(self.objects@, i as int);
                    assert(obj_wf(self.objects@[i as int]));
                }
                match gzip_decompress(self.objects[i].data.as_slice()) {
                    Result::Ok(v) => Ok(v),
                    Result::Err(_) => Err(VelesError::NotFound),
                }
            },
        }
    }
}

/// Streaming writer for one object: accumulates the bytes to store.
pub struct Object {
    data: Vec<u8>,
}

impl View for Object {
    type V = Seq<u8>;

    closed spec fn view(&self) -> Seq<u8> {
        self.data@
    }
}

/// Consuming an object writer commits what was written and yields the
/// object id; nothing more can be written afterwards.
pub trait Finalize: Sized + View<V = Seq<u8>> {
    /// Commits the written bytes to the store and returns their id.
    fn finalize(self, store: &mut ObjectStore) -> (r: Result<String, VelesError>)
        requires
            old(store).wf(),
        ensures
            final(store).wf(),
            r is Ok,
            r matches Ok(id) ==> id@ == object_id(self@) && final(store)@ == store_after_put(
                old(store)@,
                self@,
            ),
    ;
}

impl Object {
    /// A fresh writer with nothing written yet.
    pub fn new() -> (r: Result<Object, VelesError>)
        ensures
            r is Ok,
            r matches Ok(o) ==> o@.len() == 0,
    {
        Ok(Object { data: Vec::new() })
    }

    /// Appends `buf` to the bytes this writer will store.
    pub fn write_all(&mut self, buf: &[u8])
        ensures
            final(self)@ == old(self)@ + buf@,
    {
        self.data.extend_from_slice(buf);
    }
}

impl Finalize for Object {
    fn finalize(self, store: &mut ObjectStore) -> (r: Result<String, VelesError>) {
        let id = store.put_object(self.data.as_slice());
        Ok(id)
    }
}

/// Reads an object's uncompressed bytes back out of the store by its
/// 40-character id. Succeeds exactly when the store holds the id.
pub fn uncommit(store: &ObjectStore, hash: &str) -> (r: Result<Vec<u8>, VelesError>)
    requires
        store.wf(),
    ensures
        r is Ok <==> store@.contains_key(hash@),
        r matches Ok(v) ==> v@ == store@[hash@],
        r matches Err(e) ==> e == VelesError::NotFound,
{
    store.get_object(hash)
}

/// Splits a 40-character id into the two-level path pieces: the first
/// two characters name the directory, the other 38 name the file.
pub fn object_path_parts(id: &str) -> (r: (String, String))
    requires
        id@.len() == 40,
    ensures
        r.0@ == id@.subrange(0, 2),
        r.1@ == id@.subrange(2, 40),
{
    let dir: String = id.substring_char(0, 2).to_owned();
    let file: String = id.substring_char(2, 40).to_owned();
    (dir, file)
}

} // verus!
