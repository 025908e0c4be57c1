//! Addressing and storage encoding: the object hash, its hex form, the
//! two-level location derived from it, and the compressed bytes kept there.
use vstd::prelude::*;
use vstd::utf8::{decode_utf8, valid_utf8};
use crate::bytes::{copy_range, find_byte, lemma_find_byte_skip};
use crate::codec::{frame, frame_spec, lemma_parse_frame, parse, parse_spec, parsed_view, ObjectError, ObjectKind};
use crate::tree::{entries_result_view, parse_entries_spec, parse_tree_entries, utf8_text, TreeEntry};

verus! {

/// The digest of `data`, as computed by SHA-1.
pub uninterp spec fn sha1_of(data: Seq<u8>) -> Seq<u8>;

/// What zlib decoding makes of `data`: `None` when it is not a valid stream.
pub uninterp spec fn zlib_decoded(data: Seq<u8>) -> Option<Seq<u8>>;

/// The lowercase hex digit for a value below 16.
pub open spec fn hex_digit(n: u8) -> char {
    if n < 10 {
        ((48 + n) as u8) as char
    } else {
        ((87 + n) as u8) as char
    }
}

/// Lowercase hex text of `b`, two digits per byte, high nibble first.
pub open spec fn hex_of(b: Seq<u8>) -> Seq<char> {
    Seq::new(
        2 * b.len(),
        |i: int|
            if i % 2 == 0 {
                hex_digit(b[i / 2] / 16)
            } else {
                hex_digit(b[i / 2] % 16)
            },
    )
}

/// Relies on `sha1::Sha1` through `Digest::digest`: the 20-byte SHA-1 digest
/// of `data`.
#[verifier::external_body]
fn sha1_digest(data: &[u8]) -> (r: Vec<u8>)
    ensures
        r@ == sha1_of(data@),
        r@.len() == 20,
{
    <sha1::Sha1 as sha1::Digest>::digest(data).to_vec()
}

/// Relies on `hex::encode`: lowercase hex, two digits per byte.
#[verifier::external_body]
fn hex_text(b: &[u8]) -> (r: String)
    ensures
        r@ == hex_of(b@),
{
    hex::encode(b)
}

/// Relies on `flate2::write::ZlibEncoder` at the default level, writing
/// into a `Vec`, which cannot fail: a zlib stream that decodes back to
/// `data`.
#[verifier::external_body]
fn zlib_compress(data: &[u8]) -> (r: Option<Vec<u8>>)
    ensures
        r is Some,
        r matches Some(v) ==> zlib_decoded(v@) == Some(data@),
{
    let mut enc = flate2::write::ZlibEncoder::new(Vec::new(), flate2::Compression::default());
    match std::io::Write::write_all(&mut enc, data) {
        Ok(()) => enc.finish().ok(),
        Err(_) => None,
    }
}

/// Relies on `flate2::bufread::ZlibDecoder` read to the end: the decoded
/// bytes, or `None` when `data` is not a valid zlib stream.
#[verifier::external_body]
fn zlib_decompress(data: &[u8]) -> (r: Option<Vec<u8>>)
    ensures
        r is Some <==> zlib_decoded(data@) is Some,
        r matches Some(v) ==> zlib_decoded(data@) == Some(v@),
{
    let mut dec = flate2::bufread::ZlibDecoder::new(data);
    let mut out: Vec<u8> = Vec::new();
    match std::io::Read::read_to_end(&mut dec, &mut out) {
        Ok(_) => Some(out),
        Err(_) => None,
    }
}

/// The SHA-1 digest of `data`.
pub fn compute_sha1(data: &[u8]) -> (r: Vec<u8>)
    ensures
        r@ == sha1_of(data@),
        r@.len() == 20,
{
    sha1_digest(data)
}

/// Length in hex digits of an object hash.
pub const HASH_HEX_LEN: usize = 40;

/// Where an object is kept below the store's `objects` directory: a
/// subdirectory named by the first two hex digits of its hash, and a file
/// named by the rest.
pub struct ObjectLocation {
    pub dir: String,
    pub file: String,
}

/// `loc` is the location of the object whose hex hash is `h`.
pub open spec fn located_at(loc: ObjectLocation, h: Seq<char>) -> bool {
    &&& h.len() >= 2
    &&& loc.dir@ == h.subrange(0, 2)
    &&& loc.file@ == h.subrange(2, h.len() as int)
}

/// What is computed for writing one object: its hash, its location and the
/// compressed bytes to keep there.
pub struct StoredObject {
    pub hash: Vec<u8>,
    pub location: ObjectLocation,
    pub compressed: Vec<u8>,
}

/// `o` stores the framed bytes `framed` under their digest.
pub open spec fn stored_as(o: StoredObject, framed: Seq<u8>) -> bool {
    &&& o.hash@ == sha1_of(framed)
    &&& located_at(o.location, hex_of(o.hash@))
    &&& zlib_decoded(o.compressed@) == Some(framed)
}

/// What reading stored bytes yields: decompression, then the header split.
pub open spec fn read_spec(stored: Seq<u8>) -> Result<(ObjectKind, Seq<u8>), ObjectError> {
    match zlib_decoded(stored) {
        None => Err(ObjectError::CorruptObject),
        Some(framed) => parse_spec(framed),
    }
}

pub open spec fn is_hex_char(c: char) -> bool {
    ('0' <= c && c <= '9') || ('a' <= c && c <= 'f')
}

/// Text that names an object: forty lowercase hex digits.
pub open spec fn is_hash_hex(h: Seq<char>) -> bool {
    h.len() == HASH_HEX_LEN && forall|i: int| 0 <= i < h.len() ==> is_hex_char(#[trigger] h[i])
}

proof fn lemma_hex_concat(a: Seq<u8>, b: Seq<u8>)
    ensures
        hex_of(a + b) == hex_of(a) + hex_of(b),
{
    let l = hex_of(a + b);
    let r = hex_of(a) + hex_of(b);
    assert forall|i: int| 0 <= i < l.len() implies l[i] == r[i] by {
        if i >= 2 * a.len() {
            let k = i - 2 * a.len();
            assert(i / 2 == k / 2 + a.len() && i % 2 == k % 2) by (nonlinear_arith)
                requires k == i - 2 * a.len(), k >= 0;
        } else {
            assert(i / 2 < a.len()) by (nonlinear_arith)
                requires 0 <= i < 2 * a.len();
        }
    }
    assert(l =~= r);
}

/// The location of the object with hash `hash`.
pub fn object_location(hash: &[u8]) -> (r: ObjectLocation)
    requires
        hash@.len() >= 1,
    ensures
        located_at(r, hex_of(hash@)),
{
    let head = copy_range(hash, 0, 1);
    let tail = copy_range(hash, 1, hash.len());
    let dir = hex_text(head.as_slice());
    let file = hex_text(tail.as_slice());
    proof {
        assert(hash@ =~= head@ + tail@);
        lemma_hex_concat(head@, tail@);
        assert(hex_of(hash@).subrange(0, 2) =~= dir@);
        assert(hex_of(hash@).subrange(2, hex_of(hash@).len() as int) =~= file@);
    }
    ObjectLocation { dir, file }
}

/// The location named by hex text, or `None` when the text is not forty
/// lowercase hex digits.
pub fn location_of_hex(h: &str) -> (r: Option<ObjectLocation>)
    ensures
        r is Some <==> is_hash_hex(h@),
        r matches Some(loc) ==> located_at(loc, h@),
{
    let n = h.unicode_len();
    if n != HASH_HEX_LEN {
        return None;
    }
    let mut i: usize = 0;
    while i < n
        invariant
            n == h@.len(),
            0 <= i <= n,
            forall|k: int| 0 <= k < i ==> is_hex_char(#[trigger] h@[k]),
        decreases n - i,
    {
        let c = h.get_char(i);
        if !(('0' <= c && c <= '9') || ('a' <= c && c <= 'f')) {
            return None;
        }
        i = i + 1;
    }
    let dir = h.substring_char(0, 2).to_owned();
    let file = h.substring_char(2, n).to_owned();
    Some(ObjectLocation { dir, file })
}

/// Prepares framed bytes for storage under `hash`: the location and the
/// compressed bytes.
pub fn write_object(hash: &[u8], framed: &[u8]) -> (r: StoredObject)
    requires
        hash@.len() >= 1,
    ensures
        r.hash@ == hash@,
        located_at(r.location, hex_of(hash@)),
        zlib_decoded(r.compressed@) == Some(framed@),
{
    let location = object_location(hash);
    let compressed = zlib_compress(framed).unwrap();
    StoredObject { hash: copy_range(hash, 0, hash.len()), location, compressed }
}

/// Frames `content` as an object of kind `k`, hashes it and prepares it for
/// storage.
pub fn store_object(k: ObjectKind, content: &[u8]) -> (r: StoredObject)
    ensures
        stored_as(r, frame_spec(k, content@)),
{
    let framed = frame(k, content);
    let hash = compute_sha1(framed.as_slice());
    write_object(hash.as_slice(), framed.as_slice())
}

/// Builds the blob object of a file's content and prepares it for storage.
pub fn write_blob(content: &[u8]) -> (r: StoredObject)
    ensures
        stored_as(r, frame_spec(ObjectKind::Blob, content@)),
{
    store_object(ObjectKind::Blob, content)
}

/// The lowercase hex text of a hash.
pub fn hash_hex(hash: &[u8]) -> (r: String)
    ensures
        r@ == hex_of(hash@),
{
    hex_text(hash)
}

/// Decompresses the bytes kept for an object into its framed bytes;
/// `CorruptObject` when they are not a valid zlib stream.
pub fn read_raw(stored: &[u8]) -> (r: Result<Vec<u8>, ObjectError>)
    ensures
        match zlib_decoded(stored@) {
            None => r == Err::<Vec<u8>, ObjectError>(ObjectError::CorruptObject),
            Some(framed) => r matches Ok(v) && v@ == framed,
        },
{
    match zlib_decompress(stored) {
        None => Err(ObjectError::CorruptObject),
        Some(framed) => Ok(framed),
    }
}

/// Decompresses stored bytes and splits the object into kind and content:
/// `CorruptObject` when they do not decompress, `MalformedHeader` when the
/// header does not parse.
pub fn read_object(stored: &[u8]) -> (r: Result<(ObjectKind, Vec<u8>), ObjectError>)
    ensures
        parsed_view(r) == read_spec(stored@),
{
    match read_raw(stored) {
        Err(e) => Err(e),
        Ok(framed) => parse(framed.as_slice()),
    }
}

/// The content of a stored object as text; `InvalidUtf8` when it is not.
pub fn cat_file(stored: &[u8]) -> (r: Result<String, ObjectError>)
    ensures
        match read_spec(stored@) {
            Err(e) => r == Err::<String, ObjectError>(e),
            Ok((_, c)) => if valid_utf8(c) {
                r matches Ok(s) && s@ == decode_utf8(c)
            } else {
                r == Err::<String, ObjectError>(ObjectError::InvalidUtf8)
            },
        },
{
    match read_object(stored) {
        Err(e) => Err(e),
        Ok((_, content)) => match utf8_text(content) {
            Some(s) => Ok(s),
            None => Err(ObjectError::InvalidUtf8),
        },
    }
}

/// The entries of a stored tree object, in stored order.
pub fn ls_tree(stored: &[u8]) -> (r: Result<Vec<TreeEntry>, ObjectError>)
    ensures
        entries_result_view(r) == match read_spec(stored@) {
            Err(e) => Err(e),
            Ok((_, c)) => parse_entries_spec(c),
        },
{
    match read_object(stored) {
        Err(e) => Err(e),
        Ok((_, content)) => parse_tree_entries(content.as_slice()),
    }
}

/// Writing a blob twice from the same content gives the same hash and
/// location both times, and both stored byte strings read back as the same
/// blob with that content.
pub proof fn lemma_blob_addressing_idempotent(c: Seq<u8>, o1: StoredObject, o2: StoredObject)
    requires
        stored_as(o1, frame_spec(ObjectKind::Blob, c)),
        stored_as(o2, frame_spec(ObjectKind::Blob, c)),
    ensures
        o1.hash@ == o2.hash@,
        o1.location.dir@ == o2.location.dir@,
        o1.location.file@ == o2.location.file@,
        zlib_decoded(o1.compressed@) == zlib_decoded(o2.compressed@),
        read_spec(o1.compressed@) == Ok::<(ObjectKind, Seq<u8>), ObjectError>((ObjectKind::Blob, c)),
        read_spec(o2.compressed@) == Ok::<(ObjectKind, Seq<u8>), ObjectError>((ObjectKind::Blob, c)),
{
    lemma_parse_frame(ObjectKind::Blob, c);
}

/// Stored bytes that do not decompress read as `CorruptObject`; stored
/// bytes that decompress to bytes without a null byte read as
/// `MalformedHeader`. Neither yields content.
pub proof fn lemma_malformed_objects_rejected(stored: Seq<u8>)
    ensures
        zlib_decoded(stored) is None ==> read_spec(stored) == Err::<(ObjectKind, Seq<u8>), ObjectError>(
            ObjectError::CorruptObject,
        ),
        zlib_decoded(stored) matches Some(framed) && (forall|i: int| 0 <= i < framed.len() ==> framed[i] != 0)
            ==> read_spec(stored) == Err::<(ObjectKind, Seq<u8>), ObjectError>(ObjectError::MalformedHeader),
{
    if let Some(framed) = zlib_decoded(stored) {
        if forall|i: int| 0 <= i < framed.len() ==> framed[i] != 0 {
            lemma_find_byte_skip(framed, 0, 0, framed.len() as int);
            assert(find_byte(framed, 0, framed.len() as int) == framed.len());
        }
    }
}

} // verus!
