//! The object store: the tagged union over blob, tree, commit and tag; the
//! loose-object wire framing (`<tag> <decimal-length>\0<payload>`); content
//! hashing; and compression. Reading a file from disk and writing one back
//! are the surrounding program's work; everything between is here.

use vstd::prelude::*;
use vstd::slice::{slice_subrange, slice_to_vec};
use std::io::Read;
use std::io::Write;
use crypto::digest::Digest;
use crate::blob::{Blob, blob_tag, spec_blob_tag};
use crate::commit::{Commit, commit_tag, spec_commit_tag};
use crate::error::{WitError, WitErrorType, io_err, malformed_object_err, unknown_object_err};
use crate::kvlm::{Kvlm, SpecKvlm, bytes_eq, parse_fields, ser_kvlm, lemma_parse_wf,
    lemma_kvlm_round_trip};
use crate::repository::Repository;
use crate::tag::{Tag, tag_tag, spec_tag_tag};
use crate::tree::{SpecLeaf, Tree, tree_tag, spec_tree_tag, spec_parse_tree, ser_tree,
    lemma_parse_tree_wf, lemma_tree_round_trip};
use crate::util::{NUL, SP, dec_digits, dec_val, is_dec_digits, decimal_bytes, parse_dec,
    find_byte, spec_find, lemma_find_props, lemma_find_is, lemma_dec_digits,
    lemma_dec_val_nonneg, hex_bytes, hex_bytes_of};

verus! {

// ---------------------------------------------------------------------------
// Trusted boundary: hashing and compression
// ---------------------------------------------------------------------------

/// The 40-character lowercase hexadecimal SHA-1 digest of a byte sequence.
/// It depends on the bytes alone.
pub uninterp spec fn sha1_hex_of(data: Seq<u8>) -> Seq<char>;

/// The zlib deflate stream of a byte sequence, as this library compresses.
/// It depends on the bytes alone.
pub uninterp spec fn deflate_of(data: Seq<u8>) -> Seq<u8>;

/// Relies on `crypto::sha1::Sha1` with `Digest::input` and
/// `Digest::result_str`: the digest of the input bytes, rendered as
/// two lowercase hexadecimal digits per digest byte — 40 ASCII characters
/// out of `0`-`9` and `a`-`f` for SHA-1's 20-byte output.
#[verifier::external_body]
fn sha1_hex(data: &[u8]) -> (r: String)
    ensures
        r@ == sha1_hex_of(data@),
        r@.len() == 40,
        r.is_ascii(),
        forall|i: int|
            0 <= i < r@.len() ==> ((48 <= #[trigger] r@[i] as int && r@[i] as int <= 57) || (97
                <= r@[i] as int && r@[i] as int <= 102)),
{
    let mut h = crypto::sha1::Sha1::new();
    h.input(data);
    h.result_str()
}

/// Relies on `flate2::write::ZlibEncoder`: compresses the whole input into
/// one zlib stream. Writing into a `Vec` sink cannot fail.
#[verifier::external_body]
fn deflate(data: &[u8]) -> (r: Vec<u8>)
    ensures
        r@ == deflate_of(data@),
{
    let mut encoder = flate2::write::ZlibEncoder::new(Vec::new(), flate2::Compression::default());
    let _ = encoder.write_all(data);
    // a Vec sink never reports an I/O error, so the fallback arm is dead
    match encoder.finish() {
        Ok(v) => v,
        Err(_) => Vec::new(),
    }
}

/// Relies on `flate2::read::ZlibDecoder`: decompression is lossless, so a
/// stream this library compressed inflates back to exactly the bytes that
/// were compressed; a corrupt stream reports failure.
#[verifier::external_body]
fn inflate(data: &[u8]) -> (r: Option<Vec<u8>>)
    ensures
        r matches Some(v) ==> forall|x: Seq<u8>| data@ == #[trigger] deflate_of(x) ==> v@ == x,
        r is None ==> forall|x: Seq<u8>| data@ != #[trigger] deflate_of(x),
{
    let mut out: Vec<u8> = Vec::new();
    match flate2::read::ZlibDecoder::new(data).read_to_end(&mut out) {
        Ok(_) => Some(out),
        Err(_) => None,
    }
}

// ---------------------------------------------------------------------------
// Byte search helpers
// ---------------------------------------------------------------------------

/// First-occurrence search over a byte buffer, in the four shapes the codecs
/// use.
pub trait Find: View<V = Seq<u8>> {
    /// The first occurrence of `element`, or an I/O error.
    fn find(&self, element: u8) -> (r: Result<usize, WitError>)
        ensures
            match r {
                Ok(i) => spec_find(self@, element, 0) == Some(i as int),
                Err(e) => spec_find(self@, element, 0) is None && e.error
                    == WitErrorType::IOError,
            },
    ;

    /// The first occurrence of `element` at or after `start`, or an I/O
    /// error.
    fn find_from(&self, element: u8, start: usize) -> (r: Result<usize, WitError>)
        ensures
            match r {
                Ok(i) => spec_find(self@, element, start as int) == Some(i as int),
                Err(e) => spec_find(self@, element, start as int) is None && e.error
                    == WitErrorType::IOError,
            },
    ;

    /// The first occurrence of `element` at or after `start`, if any.
    fn find_some(&self, element: u8, start: usize) -> (r: Option<usize>)
        ensures
            match r {
                Some(i) => spec_find(self@, element, start as int) == Some(i as int),
                None => spec_find(self@, element, start as int) is None,
            },
    ;

    /// The first occurrence of `element` at or after `start`, or -1.
    fn find_signed(&self, element: u8, start: usize) -> (r: isize)
        requires
            self@.len() <= isize::MAX as int,
        ensures
            match spec_find(self@, element, start as int) {
                Some(i) => r == i,
                None => r == -1,
            },
    ;

    /// The first occurrence of `element` at or after `start`, which must
    /// exist.
    fn find_exact(&self, element: u8, start: usize) -> (r: usize)
        requires
            spec_find(self@, element, start as int) is Some,
        ensures
            spec_find(self@, element, start as int) == Some(r as int),
    ;
}

impl Find for Vec<u8> {
    fn find(&self, element: u8) -> (r: Result<usize, WitError>) {
        self.find_from(element, 0)
    }

    fn find_from(&self, element: u8, start: usize) -> (r: Result<usize, WitError>) {
        match find_byte(self, element, start) {
            Some(i) => Ok(i),
            None => Err(io_err("Byte not found.".to_owned())),
        }
    }

    fn find_some(&self, element: u8, start: usize) -> (r: Option<usize>) {
        find_byte(self, element, start)
    }

    fn find_signed(&self, element: u8, start: usize) -> (r: isize) {
        proof {
            lemma_find_props(self@, element, start as int);
        }
        match find_byte(self, element, start) {
            Some(i) => i as isize,
            None => -1,
        }
    }

    fn find_exact(&self, element: u8, start: usize) -> (r: usize) {
        match find_byte(self, element, start) {
            Some(i) => i,
            None => {
                proof {
                    assert(false);
                }
                0
            },
        }
    }
}

// ---------------------------------------------------------------------------
// The object model
// ---------------------------------------------------------------------------

/// One stored object.
#[derive(Debug)]
pub enum WitObject {
    BlobObject(Blob),
    CommitObject(Commit),
    TreeObject(Tree),
    TagObject(Tag),
}

/// Mathematical model of an object.
pub enum ObjView {
    BlobV(Seq<u8>),
    CommitV(SpecKvlm),
    TreeV(Seq<SpecLeaf>),
    TagV(SpecKvlm),
}

impl View for WitObject {
    type V = ObjView;

    open spec fn view(&self) -> ObjView {
        match self {
            WitObject::BlobObject(b) => ObjView::BlobV(b@),
            WitObject::CommitObject(c) => ObjView::CommitV(c@),
            WitObject::TreeObject(t) => ObjView::TreeV(t@),
            WitObject::TagObject(t) => ObjView::TagV(t@),
        }
    }
}

/// The type tag of an object.
pub open spec fn spec_fmt(o: ObjView) -> Seq<u8> {
    match o {
        ObjView::BlobV(_) => spec_blob_tag(),
        ObjView::CommitV(_) => spec_commit_tag(),
        ObjView::TreeV(_) => spec_tree_tag(),
        ObjView::TagV(_) => spec_tag_tag(),
    }
}

/// The payload an object serializes to.
pub open spec fn spec_serialize(o: ObjView) -> Seq<u8> {
    match o {
        ObjView::BlobV(d) => d,
        ObjView::CommitV(k) => ser_kvlm(k),
        ObjView::TreeV(ls) => ser_tree(ls),
        ObjView::TagV(k) => ser_kvlm(k),
    }
}

/// The object built from a type tag and a payload, when the tag is known and
/// the payload parses.
pub open spec fn spec_build(fmt: Seq<u8>, data: Seq<u8>) -> Option<ObjView> {
    if fmt == spec_blob_tag() {
        Some(ObjView::BlobV(data))
    } else if fmt == spec_commit_tag() {
        Some(ObjView::CommitV(parse_fields(data)))
    } else if fmt == spec_tree_tag() {
        match spec_parse_tree(data) {
            None => None,
            Some(ls) => Some(ObjView::TreeV(ls)),
        }
    } else if fmt == spec_tag_tag() {
        Some(ObjView::TagV(parse_fields(data)))
    } else {
        None
    }
}

impl WitObject {
    /// The object's payload bytes.
    pub fn serialize(&self) -> (r: Vec<u8>)
        ensures
            r@ == spec_serialize(self@),
    {
        match self {
            WitObject::BlobObject(b) => b.serialize(),
            WitObject::CommitObject(c) => c.serialize(),
            WitObject::TreeObject(t) => t.serialize(),
            WitObject::TagObject(t) => t.serialize(),
        }
    }

    /// The object's type tag.
    pub fn fmt(&self) -> (r: Vec<u8>)
        ensures
            r@ == spec_fmt(self@),
    {
        match self {
            WitObject::BlobObject(b) => b.fmt(),
            WitObject::CommitObject(c) => c.fmt(),
            WitObject::TreeObject(t) => t.fmt(),
            WitObject::TagObject(t) => t.fmt(),
        }
    }

    /// Replaces the object's content with the parse of `data`; a tree
    /// appends the parsed leaves to those it holds.
    pub fn deserialize(&mut self, data: &Vec<u8>) -> (r: Result<(), WitError>)
        ensures
            old(self)@ is BlobV ==> r is Ok && final(self)@ == ObjView::BlobV(data@),
            old(self)@ is CommitV ==> r is Ok && final(self)@ == ObjView::CommitV(
                parse_fields(data@),
            ),
            old(self)@ is TagV ==> r is Ok && final(self)@ == ObjView::TagV(parse_fields(data@)),
            old(self)@ matches ObjView::TreeV(ls) ==> (match r {
                Ok(()) => spec_parse_tree(data@) is Some && final(self)@ == ObjView::TreeV(
                    ls + spec_parse_tree(data@)->0,
                ),
                Err(_) => spec_parse_tree(data@) is None && final(self)@ == old(self)@,
            }),
    {
        match self {
            WitObject::BlobObject(b) => {
                let mut copy: Vec<u8> = Vec::new();
                copy.extend_from_slice(data.as_slice());
                proof {
                    assert(copy@ =~= data@);
                }
                b.deserialize(copy)
            },
            WitObject::CommitObject(c) => c.deserialize(data),
            WitObject::TreeObject(t) => t.deserialize(data),
            WitObject::TagObject(t) => t.deserialize(data),
        }
    }
}

/// Builds the object for a type tag and payload. An unrecognized tag is an
/// unknown-object-type error; a tree payload that does not parse reports the
/// tree codec's error.
pub fn build(fmt: &Vec<u8>, data: Vec<u8>) -> (r: Result<WitObject, WitError>)
    ensures
        match r {
            Ok(o) => spec_build(fmt@, data@) == Some(o@),
            Err(e) => spec_build(fmt@, data@) is None && (fmt@ != spec_blob_tag() && fmt@
                != spec_commit_tag() && fmt@ != spec_tree_tag() && fmt@ != spec_tag_tag()
                ==> e.error == WitErrorType::UnknownObjectTypeError),
        },
{
    let blob_t = blob_tag();
    let commit_t = commit_tag();
    let tree_t = tree_tag();
    let tag_t = tag_tag();
    if bytes_eq(fmt, &blob_t) {
        Ok(WitObject::BlobObject(Blob::new(data)))
    } else if bytes_eq(fmt, &commit_t) {
        let kvlm = Kvlm::create(&data, 0);
        proof {
            assert(data@.skip(0) =~= data@);
        }
        Ok(WitObject::CommitObject(Commit { kvlm }))
    } else if bytes_eq(fmt, &tree_t) {
        match Tree::from(&data) {
            Ok(t) => Ok(WitObject::TreeObject(t)),
            Err(e) => Err(e),
        }
    } else if bytes_eq(fmt, &tag_t) {
        let kvlm = Kvlm::create(&data, 0);
        proof {
            assert(data@.skip(0) =~= data@);
        }
        Ok(WitObject::TagObject(Tag { kvlm }))
    } else {
        Err(unknown_object_err("Unknown object type.".to_owned()))
    }
}

// ---------------------------------------------------------------------------
// The loose-object wire format
// ---------------------------------------------------------------------------

/// The wire bytes of a loose object before compression:
/// `<tag> <decimal-length>\0<payload>`.
pub open spec fn spec_frame(fmt: Seq<u8>, payload: Seq<u8>) -> Seq<u8> {
    fmt + seq![SP] + dec_digits(payload.len()) + seq![NUL] + payload
}

/// The header positions of a framed buffer: the first space and the first
/// NUL after it.
pub open spec fn spec_frame_split(raw: Seq<u8>) -> Option<(int, int)> {
    match spec_find(raw, SP, 0) {
        None => None,
        Some(x) => match spec_find(raw, NUL, x) {
            None => None,
            Some(y) => Some((x, y)),
        },
    }
}

/// The parse of a framed buffer: the tag and the payload, provided the
/// declared length consists of digits and equals the payload length exactly.
pub open spec fn spec_parse_frame(raw: Seq<u8>) -> Option<(Seq<u8>, Seq<u8>)> {
    match spec_frame_split(raw) {
        None => None,
        Some((x, y)) => {
            let digits = raw.subrange(x + 1, y);
            if is_dec_digits(digits) && dec_val(digits) == raw.len() - y - 1 {
                Some((raw.take(x), raw.skip(y + 1)))
            } else {
                None
            }
        },
    }
}

/// The object a decompressed loose buffer denotes, if any.
pub open spec fn spec_read_loose(data: Seq<u8>) -> Option<ObjView> {
    match spec_parse_frame(data) {
        None => None,
        Some((f, p)) => spec_build(f, p),
    }
}

/// Parses a decompressed loose object: splits the header on the first space
/// and the first NUL, checks the declared length against the remaining
/// bytes, and dispatches on the type tag. A length mismatch is a
/// malformed-object error, never tolerated.
pub fn read_loose(data: &Vec<u8>) -> (r: Result<WitObject, WitError>)
    ensures
        match r {
            Ok(o) => spec_read_loose(data@) == Some(o@),
            Err(e) => spec_read_loose(data@) is None,
        },
        (spec_frame_split(data@) matches Some((x, y)) && is_dec_digits(data@.subrange(x + 1, y))
            && dec_val(data@.subrange(x + 1, y)) <= usize::MAX && dec_val(
            data@.subrange(x + 1, y),
        ) != data@.len() - y - 1) ==> (r matches Err(e) && e.error
            == WitErrorType::MalformedObjectError),
{
    let x = match find_byte(data, SP, 0) {
        Some(x) => x,
        None => {
            return Err(io_err("Loose object has no space in its header.".to_owned()));
        },
    };
    let y = match find_byte(data, NUL, x) {
        Some(y) => y,
        None => {
            return Err(io_err("Loose object has no NUL in its header.".to_owned()));
        },
    };
    proof {
        lemma_find_props(data@, SP, 0);
        lemma_find_props(data@, NUL, x as int);
    }
    let digits = slice_subrange(data.as_slice(), x + 1, y);
    let total = data.len();
    let size = match parse_dec(digits) {
        Some(s) => s,
        None => {
            proof {
                assert(data@.len() == total);
                if is_dec_digits(data@.subrange(x + 1, y as int)) {
                    lemma_dec_val_nonneg(data@.subrange(x + 1, y as int));
                    assert(dec_val(data@.subrange(x + 1, y as int)) > usize::MAX as int);
                    assert(data@.len() - y - 1 <= usize::MAX as int);
                }
            }
            return Err(
                WitError::new(
                    WitErrorType::InheritedError,
                    "Loose object length field is not a number.".to_owned(),
                ),
            );
        },
    };
    if size != data.len() - y - 1 {
        return Err(malformed_object_err("Malformed object: bad length.".to_owned()));
    }
    let fmt = slice_to_vec(slice_subrange(data.as_slice(), 0, x));
    let payload = slice_to_vec(slice_subrange(data.as_slice(), y + 1, data.len()));
    proof {
        assert(fmt@ =~= data@.take(x as int));
        assert(payload@ =~= data@.skip(y + 1));
    }
    build(&fmt, payload)
}

/// Reads a compressed loose object: inflates it and parses the frame. For
/// any buffer this library compressed, the result is exactly the parse of
/// what was compressed.
pub fn read(raw: &Vec<u8>) -> (r: Result<WitObject, WitError>)
    ensures
        r matches Ok(o) ==> forall|x: Seq<u8>|
            raw@ == #[trigger] deflate_of(x) ==> spec_read_loose(x) == Some(o@),
        r is Err ==> forall|x: Seq<u8>|
            raw@ == #[trigger] deflate_of(x) ==> spec_read_loose(x) is None,
{
    let decoded = match inflate(raw.as_slice()) {
        Some(d) => d,
        None => {
            return Err(
                WitError::new(
                    WitErrorType::InheritedError,
                    "Could not decompress the object file.".to_owned(),
                ),
            );
        },
    };
    read_loose(&decoded)
}

/// Serializes and frames an object, hashes the frame into the object's
/// identifier, and, when persistence is requested, compresses the frame for
/// storage. The identifier is returned whether or not the object is to be
/// persisted.
pub fn write(obj: &WitObject, actually_write: bool) -> (r: (String, Option<Vec<u8>>))
    ensures
        r.0@ == sha1_hex_of(spec_frame(spec_fmt(obj@), spec_serialize(obj@))),
        r.0@.len() == 40,
        r.0.is_ascii(),
        actually_write ==> (r.1 matches Some(c) && c@ == deflate_of(
            spec_frame(spec_fmt(obj@), spec_serialize(obj@)),
        )),
        !actually_write ==> r.1 is None,
{
    let data = obj.serialize();
    let mut result = obj.fmt();
    result.push(SP);
    let mut dec = decimal_bytes(data.len());
    result.append(&mut dec);
    result.push(NUL);
    result.extend_from_slice(data.as_slice());
    proof {
        assert(result@ =~= spec_frame(spec_fmt(obj@), spec_serialize(obj@)));
    }
    let sha = sha1_hex(result.as_slice());
    if actually_write {
        let compressed = deflate(result.as_slice());
        (sha, Some(compressed))
    } else {
        (sha, None)
    }
}

/// Builds the object for `fmt` over `data` and hands it to `write`;
/// persistence happens exactly when the caller asks for it.
pub fn hash(data: Vec<u8>, fmt: &Vec<u8>, actually_write: bool) -> (r: Result<
    (String, Option<Vec<u8>>),
    WitError,
>)
    ensures
        match r {
            Ok((sha, c)) => spec_build(fmt@, data@) matches Some(o) && sha@ == sha1_hex_of(
                spec_frame(spec_fmt(o), spec_serialize(o)),
            ) && (actually_write ==> (c matches Some(cc) && cc@ == deflate_of(
                spec_frame(spec_fmt(o), spec_serialize(o)),
            ))) && (!actually_write ==> c is None),
            Err(_) => spec_build(fmt@, data@) is None,
        },
{
    let obj = match build(fmt, data) {
        Ok(o) => o,
        Err(e) => {
            return Err(e);
        },
    };
    Ok(write(&obj, actually_write))
}

/// Resolves an object name to an identifier. Name resolution beyond the
/// identity is not implemented: the name itself is returned.
pub fn find(_repo: &Repository, name: &str, _fmt: Option<&str>, _follow: bool) -> (r: Result<
    String,
    WitError,
>)
    ensures
        r matches Ok(s) && s@ == name@,
{
    Ok(name.to_owned())
}

/// The directory and file name a loose object is stored under: the first two
/// identifier characters, then the remaining 38.
pub fn loose_path(sha: &str) -> (r: (String, String))
    requires
        sha@.len() == 40,
        sha.is_ascii(),
    ensures
        r.0@ == sha@.take(2),
        r.1@ == sha@.skip(2),
{
    let dir = sha.substring_ascii(0, 2).to_owned();
    let file = sha.substring_ascii(2, 40).to_owned();
    proof {
        assert(dir@ =~= sha@.take(2));
        assert(file@ =~= sha@.skip(2));
    }
    (dir, file)
}

// ---------------------------------------------------------------------------
// The store round trip
// ---------------------------------------------------------------------------

/// The four type tags carry neither a space nor a NUL.
proof fn lemma_tag_bytes(fmt: Seq<u8>)
    requires
        fmt == spec_blob_tag() || fmt == spec_commit_tag() || fmt == spec_tree_tag() || fmt
            == spec_tag_tag(),
    ensures
        fmt.len() >= 1,
        forall|i: int| 0 <= i < fmt.len() ==> #[trigger] fmt[i] != SP && fmt[i] != NUL,
{
    if fmt == spec_blob_tag() {
        assert forall|i: int| 0 <= i < fmt.len() implies #[trigger] fmt[i] != SP && fmt[i]
            != NUL by {
            assert(fmt.len() == 4);
        }
    } else if fmt == spec_commit_tag() {
        assert forall|i: int| 0 <= i < fmt.len() implies #[trigger] fmt[i] != SP && fmt[i]
            != NUL by {
            assert(fmt.len() == 6);
        }
    } else if fmt == spec_tree_tag() {
        assert forall|i: int| 0 <= i < fmt.len() implies #[trigger] fmt[i] != SP && fmt[i]
            != NUL by {
            assert(fmt.len() == 4);
        }
    } else {
        assert forall|i: int| 0 <= i < fmt.len() implies #[trigger] fmt[i] != SP && fmt[i]
            != NUL by {
            assert(fmt.len() == 3);
        }
    }
}

/// Parsing the frame of any tag and payload gives both back exactly.
pub proof fn lemma_frame_round_trip(fmt: Seq<u8>, payload: Seq<u8>)
    requires
        fmt == spec_blob_tag() || fmt == spec_commit_tag() || fmt == spec_tree_tag() || fmt
            == spec_tag_tag(),
    ensures
        spec_parse_frame(spec_frame(fmt, payload)) == Some((fmt, payload)),
{
    lemma_tag_bytes(fmt);
    lemma_dec_digits(payload.len());
    let digits = dec_digits(payload.len());
    let raw = spec_frame(fmt, payload);
    let x = fmt.len() as int;
    let dl = digits.len() as int;
    let y = x + 1 + dl;
    assert(raw.len() == y + 1 + payload.len());
    assert(forall|j: int| 0 <= j < x ==> raw[j] == fmt[j]);
    assert(raw[x] == SP);
    assert(forall|j: int| 0 <= j < dl ==> raw[x + 1 + j] == digits[j]);
    assert(raw[y] == NUL);
    assert(forall|j: int| 0 <= j < payload.len() ==> raw[y + 1 + j] == payload[j]);
    assert forall|j: int| 0 <= j < x implies raw[j] != SP by {
        assert(raw[j] == fmt[j]);
    }
    lemma_find_is(raw, SP, 0, x);
    assert forall|j: int| x <= j < y implies raw[j] != NUL by {
        if j > x {
            assert(raw[j] == digits[j - x - 1]);
            assert(48 <= digits[j - x - 1] <= 57);
        }
    }
    lemma_find_is(raw, NUL, x, y);
    assert(raw.subrange(x + 1, y) =~= digits);
    assert(dec_val(digits) == payload.len());
    assert(raw.len() - y - 1 == payload.len());
    assert(raw.take(x) =~= fmt);
    assert(raw.skip(y + 1) =~= payload);
}

/// The store round trip: build an object from any payload and any known
/// tag, frame and serialize it as `write` does, and parse the frame back as
/// `read` does — the type tag and the payload bytes come back identical.
pub proof fn lemma_store_round_trip(fmt: Seq<u8>, payload: Seq<u8>)
    requires
        spec_build(fmt, payload) is Some,
    ensures
        ({
            let obj = spec_build(fmt, payload)->0;
            let wire = spec_frame(spec_fmt(obj), spec_serialize(obj));
            &&& spec_read_loose(wire) is Some
            &&& spec_fmt(spec_read_loose(wire)->0) == spec_fmt(obj)
            &&& spec_serialize(spec_read_loose(wire)->0) == spec_serialize(obj)
        }),
{
    let obj = spec_build(fmt, payload)->0;
    let f2 = spec_fmt(obj);
    let s2 = spec_serialize(obj);
    assert(f2 == spec_blob_tag() || f2 == spec_commit_tag() || f2 == spec_tree_tag() || f2
        == spec_tag_tag());
    lemma_frame_round_trip(f2, s2);
    let wire = spec_frame(f2, s2);
    assert(spec_parse_frame(wire) == Some((f2, s2)));
    lemma_tags_distinct();
    match obj {
        ObjView::BlobV(d) => {
            assert(spec_build(f2, s2) == Some(ObjView::BlobV(d)));
        },
        ObjView::CommitV(k) => {
            assert(k == parse_fields(payload));
            lemma_parse_wf(payload);
            lemma_kvlm_round_trip(k);
            assert(spec_build(f2, s2) == Some(ObjView::CommitV(parse_fields(ser_kvlm(k)))));
        },
        ObjView::TreeV(ls) => {
            assert(spec_parse_tree(payload) == Some(ls));
            lemma_parse_tree_wf(payload);
            lemma_tree_round_trip(ls);
            assert(spec_build(f2, s2) == Some(ObjView::TreeV(ls)));
        },
        ObjView::TagV(k) => {
            assert(k == parse_fields(payload));
            lemma_parse_wf(payload);
            lemma_kvlm_round_trip(k);
            assert(spec_build(f2, s2) == Some(ObjView::TagV(parse_fields(ser_kvlm(k)))));
        },
    }
}

// ---------------------------------------------------------------------------
// An in-memory view of the store
// ---------------------------------------------------------------------------

/// Model of a loaded object store: identifier bytes paired with objects.
pub open spec fn store_view(s: Seq<(Vec<u8>, WitObject)>) -> Seq<(Seq<u8>, ObjView)> {
    Seq::new(s.len(), |i: int| (s[i].0@, s[i].1@))
}

/// The identifiers of a store, in order.
pub open spec fn store_keys(store: Seq<(Seq<u8>, ObjView)>) -> Seq<Seq<u8>> {
    Seq::new(store.len(), |i: int| store[i].0)
}

/// The first object stored under `key`, if any.
pub open spec fn store_find(store: Seq<(Seq<u8>, ObjView)>, key: Seq<u8>) -> Option<ObjView>
    decreases store.len(),
{
    if store.len() == 0 {
        None
    } else if store[0].0 == key {
        Some(store[0].1)
    } else {
        store_find(store.skip(1), key)
    }
}

proof fn lemma_store_find_is(store: Seq<(Seq<u8>, ObjView)>, key: Seq<u8>, i: int)
    requires
        0 <= i < store.len(),
        store[i].0 == key,
        forall|j: int| 0 <= j < i ==> (#[trigger] store[j]).0 != key,
    ensures
        store_find(store, key) == Some(store[i].1),
    decreases i,
{
    if i > 0 {
        assert(store.skip(1)[i - 1] == store[i]);
        assert forall|j: int| 0 <= j < i - 1 implies (#[trigger] store.skip(1)[j]).0 != key by {
            assert(store.skip(1)[j] == store[j + 1]);
        }
        lemma_store_find_is(store.skip(1), key, i - 1);
    }
}

proof fn lemma_store_find_none(store: Seq<(Seq<u8>, ObjView)>, key: Seq<u8>)
    requires
        forall|j: int| 0 <= j < store.len() ==> (#[trigger] store[j]).0 != key,
    ensures
        store_find(store, key) is None,
    decreases store.len(),
{
    if store.len() > 0 {
        assert forall|j: int| 0 <= j < store.skip(1).len() implies (#[trigger] store.skip(
            1,
        )[j]).0 != key by {
            assert(store.skip(1)[j] == store[j + 1]);
        }
        lemma_store_find_none(store.skip(1), key);
    }
}

/// A found object's key stands among the store keys.
proof fn lemma_store_find_in_keys(store: Seq<(Seq<u8>, ObjView)>, key: Seq<u8>)
    requires
        store_find(store, key) is Some,
    ensures
        contains_bytes(store_keys(store), key),
    decreases store.len(),
{
    if store.len() > 0 {
        if store[0].0 == key {
            assert(store_keys(store)[0] == key);
        } else {
            lemma_store_find_in_keys(store.skip(1), key);
            let j = choose|j: int|
                0 <= j < store_keys(store.skip(1)).len() && store_keys(store.skip(1))[j] == key;
            assert(store_keys(store)[j + 1] == store_keys(store.skip(1))[j]);
        }
    }
}

/// The first object stored under `key`, if any.
pub fn store_get<'a>(store: &'a Vec<(Vec<u8>, WitObject)>, key: &Vec<u8>) -> (r: Option<
    &'a WitObject,
>)
    ensures
        match r {
            Some(o) => store_find(store_view(store@), key@) == Some(o@),
            None => store_find(store_view(store@), key@) is None,
        },
{
    let ghost sv = store_view(store@);
    let mut i: usize = 0;
    while i < store.len()
        invariant
            i <= store@.len(),
            sv == store_view(store@),
            sv.len() == store@.len(),
            forall|j: int| 0 <= j < i ==> (#[trigger] sv[j]).0 != key@,
        decreases store@.len() - i,
    {
        proof {
            assert(sv[i as int] == (store@[i as int].0@, store@[i as int].1@));
        }
        if bytes_eq(&store[i].0, key) {
            proof {
                lemma_store_find_is(sv, key@, i as int);
            }
            return Some(&store[i].1);
        }
        i = i + 1;
    }
    proof {
        lemma_store_find_none(sv, key@);
    }
    None
}

// ---------------------------------------------------------------------------
// The ancestry walker
// ---------------------------------------------------------------------------

/// Whether `x` occurs in `s`.
pub open spec fn contains_bytes(s: Seq<Seq<u8>>, x: Seq<u8>) -> bool {
    exists|i: int| 0 <= i < s.len() && s[i] == x
}

/// Whether `x` occurs in a vector of byte vectors.
pub fn vec_contains_bytes(s: &Vec<Vec<u8>>, x: &Vec<u8>) -> (r: bool)
    ensures
        r == contains_bytes(crate::kvlm::vals_view(s@), x@),
{
    let ghost sv = crate::kvlm::vals_view(s@);
    let mut i: usize = 0;
    while i < s.len()
        invariant
            i <= s@.len(),
            sv == crate::kvlm::vals_view(s@),
            sv.len() == s@.len(),
            forall|j: int| 0 <= j < i ==> #[trigger] sv[j] != x@,
        decreases s@.len() - i,
    {
        proof {
            assert(sv[i as int] == s@[i as int]@);
        }
        if bytes_eq(&s[i], x) {
            return true;
        }
        i = i + 1;
    }
    false
}

/// The targets of the edges that leave from `s`, in order.
pub open spec fn edges_from(edges: Seq<(Vec<u8>, Vec<u8>)>, s: Seq<u8>) -> Seq<Seq<u8>>
    decreases edges.len(),
{
    if edges.len() == 0 {
        Seq::empty()
    } else {
        let rest = edges_from(edges.skip(1), s);
        if edges[0].0@ == s {
            seq![edges[0].1@] + rest
        } else {
            rest
        }
    }
}

/// `edges_from` splits over concatenation.
proof fn lemma_edges_from_concat(a: Seq<(Vec<u8>, Vec<u8>)>, b: Seq<(Vec<u8>, Vec<u8>)>, s: Seq<u8>)
    ensures
        edges_from(a + b, s) == edges_from(a, s) + edges_from(b, s),
    decreases a.len(),
{
    if a.len() == 0 {
        assert(a + b =~= b);
        assert(edges_from(a, s) == Seq::<Seq<u8>>::empty());
        assert(edges_from(a + b, s) =~= edges_from(a, s) + edges_from(b, s));
    } else {
        assert((a + b)[0] == a[0]);
        assert((a + b).skip(1) =~= a.skip(1) + b);
        lemma_edges_from_concat(a.skip(1), b, s);
        assert(edges_from(a + b, s) =~= edges_from(a, s) + edges_from(b, s));
    }
}

/// The parent identifiers of the commit stored under `sha`: the values of
/// its `parent` field, in stored order; empty when the object is missing,
/// not a commit, or has no parents.
pub open spec fn spec_parents(store: Seq<(Seq<u8>, ObjView)>, sha: Seq<u8>) -> Seq<Seq<u8>> {
    match store_find(store, sha) {
        Some(o) => match o {
            ObjView::CommitV(k) => {
                let i = crate::kvlm::first_key_index(k.fields, crate::util::ascii_bytes("parent"@));
                if i >= 0 {
                    k.fields[i].values
                } else {
                    Seq::empty()
                }
            },
            _ => Seq::empty(),
        },
        None => Seq::empty(),
    }
}

/// Membership in a concatenation is membership in one of the parts.
proof fn lemma_contains_concat(a: Seq<Seq<u8>>, b: Seq<Seq<u8>>, x: Seq<u8>)
    ensures
        contains_bytes(a + b, x) <==> contains_bytes(a, x) || contains_bytes(b, x),
{
    if contains_bytes(a + b, x) {
        let i = choose|i: int| 0 <= i < (a + b).len() && (a + b)[i] == x;
        if i < a.len() {
            assert(a[i] == x);
        } else {
            assert(b[i - a.len()] == x);
        }
    }
    if contains_bytes(a, x) {
        let i = choose|i: int| 0 <= i < a.len() && a[i] == x;
        assert((a + b)[i] == x);
    }
    if contains_bytes(b, x) {
        let i = choose|i: int| 0 <= i < b.len() && b[i] == x;
        assert((a + b)[a.len() + i] == x);
    }
}

/// Stitches the walker's edge accounting across one recursive call: the
/// edges recorded so far, then the callee's, leave exactly once from each
/// visited commit.
proof fn walker_edges_compose(
    ae_mid: Seq<(Vec<u8>, Vec<u8>)>,
    child_e: Seq<(Vec<u8>, Vec<u8>)>,
    asn_pre: Seq<Seq<u8>>,
    child_s: Seq<Seq<u8>>,
    pre_seen: Seq<Seq<u8>>,
    sv: Seq<(Seq<u8>, ObjView)>,
    sha_v: Seq<u8>,
    pv_taken: Seq<Seq<u8>>,
)
    requires
        forall|s: Seq<u8>|
            #[trigger] edges_from(ae_mid, s) == (if s == sha_v {
                pv_taken
            } else if contains_bytes(asn_pre, s) {
                spec_parents(sv, s)
            } else {
                Seq::<Seq<u8>>::empty()
            }),
        forall|s: Seq<u8>|
            #[trigger] edges_from(child_e, s) == (if contains_bytes(child_s, s) {
                spec_parents(sv, s)
            } else {
                Seq::<Seq<u8>>::empty()
            }),
        forall|i: int| 0 <= i < child_s.len() ==> !contains_bytes(pre_seen, #[trigger] child_s[i]),
        forall|x: Seq<u8>| contains_bytes(asn_pre, x) ==> #[trigger] contains_bytes(pre_seen, x),
        contains_bytes(pre_seen, sha_v),
    ensures
        forall|s: Seq<u8>|
            #[trigger] edges_from(ae_mid + child_e, s) == (if s == sha_v {
                pv_taken
            } else if contains_bytes(asn_pre + child_s, s) {
                spec_parents(sv, s)
            } else {
                Seq::<Seq<u8>>::empty()
            }),
{
    assert forall|s: Seq<u8>|
        #[trigger] edges_from(ae_mid + child_e, s) == (if s == sha_v {
            pv_taken
        } else if contains_bytes(asn_pre + child_s, s) {
            spec_parents(sv, s)
        } else {
            Seq::<Seq<u8>>::empty()
        }) by {
        lemma_edges_from_concat(ae_mid, child_e, s);
        lemma_contains_concat(asn_pre, child_s, s);
        if contains_bytes(child_s, s) {
            let i = choose|i: int| 0 <= i < child_s.len() && child_s[i] == s;
            assert(!contains_bytes(pre_seen, s));
        }
        if s == sha_v {
            assert(!contains_bytes(child_s, s));
            assert(edges_from(child_e, s) == Seq::<Seq<u8>>::empty());
            assert(pv_taken + Seq::<Seq<u8>>::empty() =~= pv_taken);
        } else if contains_bytes(asn_pre, s) {
            assert(contains_bytes(pre_seen, s));
            assert(!contains_bytes(child_s, s));
            assert(spec_parents(sv, s) + Seq::<Seq<u8>>::empty() =~= spec_parents(sv, s));
        } else if contains_bytes(child_s, s) {
            assert(edges_from(ae_mid, s) == Seq::<Seq<u8>>::empty());
            assert(Seq::<Seq<u8>>::empty() + spec_parents(sv, s) =~= spec_parents(sv, s));
        } else {
            assert(Seq::<Seq<u8>>::empty() + Seq::<Seq<u8>>::empty() =~= Seq::<
                Seq<u8>,
            >::empty());
        }
    }
}

/// How many store keys are already visited (with multiplicity).
pub open spec fn count_in_seen(keys: Seq<Seq<u8>>, seen: Seq<Seq<u8>>) -> int
    decreases keys.len(),
{
    if keys.len() == 0 {
        0
    } else {
        (if contains_bytes(seen, keys[0]) {
            1int
        } else {
            0int
        }) + count_in_seen(keys.skip(1), seen)
    }
}

proof fn lemma_count_bounds(keys: Seq<Seq<u8>>, seen: Seq<Seq<u8>>)
    ensures
        0 <= count_in_seen(keys, seen) <= keys.len(),
    decreases keys.len(),
{
    if keys.len() > 0 {
        lemma_count_bounds(keys.skip(1), seen);
    }
}

proof fn lemma_count_monotone(keys: Seq<Seq<u8>>, s1: Seq<Seq<u8>>, s2: Seq<Seq<u8>>)
    requires
        forall|x: Seq<u8>| contains_bytes(s1, x) ==> #[trigger] contains_bytes(s2, x),
    ensures
        count_in_seen(keys, s1) <= count_in_seen(keys, s2),
    decreases keys.len(),
{
    if keys.len() > 0 {
        lemma_count_monotone(keys.skip(1), s1, s2);
    }
}

/// A prefix extension keeps every visited key visited.
proof fn lemma_prefix_contains(s1: Seq<Seq<u8>>, s2: Seq<Seq<u8>>)
    requires
        s1.is_prefix_of(s2),
    ensures
        forall|x: Seq<u8>| contains_bytes(s1, x) ==> #[trigger] contains_bytes(s2, x),
{
    assert forall|x: Seq<u8>| contains_bytes(s1, x) implies #[trigger] contains_bytes(s2, x) by {
        let i = choose|i: int| 0 <= i < s1.len() && s1[i] == x;
        assert(s2[i] == s1[i]);
    }
}

/// Visiting a fresh store key raises the visited count.
proof fn lemma_count_push_new(keys: Seq<Seq<u8>>, seen: Seq<Seq<u8>>, x: Seq<u8>)
    requires
        !contains_bytes(seen, x),
        contains_bytes(keys, x),
    ensures
        count_in_seen(keys, seen.push(x)) >= count_in_seen(keys, seen) + 1,
    decreases keys.len(),
{
    assert(seen.is_prefix_of(seen.push(x))) by {
        assert(seen.push(x).take(seen.len() as int) =~= seen);
    }
    lemma_prefix_contains(seen, seen.push(x));
    if keys[0] == x {
        assert(contains_bytes(seen.push(x), keys[0])) by {
            assert(seen.push(x)[seen.len() as int] == x);
        }
        lemma_count_monotone(keys.skip(1), seen, seen.push(x));
    } else {
        let i = choose|i: int| 0 <= i < keys.len() && keys[i] == x;
        assert(keys.skip(1)[i - 1] == x);
        assert(contains_bytes(keys.skip(1), x));
        lemma_count_push_new(keys.skip(1), seen, x);
    }
}

/// The outcome of an ancestry walk.
pub enum WalkResult {
    /// The walk succeeded: the visited list and the edges it produced.
    WOk(Seq<Seq<u8>>, Seq<(Seq<u8>, Seq<u8>)>),
    /// An identifier on the walk is not in the store.
    WMissing,
    /// An identifier on the walk resolves to something other than a commit.
    WNotCommit,
    /// The walk did not finish within the step budget.
    WOut,
}

/// The ancestry walk from `sha` over visited list `seen`: an already-visited
/// start changes nothing; otherwise the commit is looked up, marked visited,
/// and each of its parents, in stored order, contributes one edge and is
/// walked in turn. Each fresh visit spends one unit of `fuel`.
pub open spec fn spec_walk(
    store: Seq<(Seq<u8>, ObjView)>,
    sha: Seq<u8>,
    seen: Seq<Seq<u8>>,
    fuel: nat,
) -> WalkResult
    decreases fuel, 1int, 0int,
{
    if contains_bytes(seen, sha) {
        WalkResult::WOk(seen, Seq::empty())
    } else if fuel == 0 {
        WalkResult::WOut
    } else {
        match store_find(store, sha) {
            None => WalkResult::WMissing,
            Some(o) => match o {
                ObjView::CommitV(k) => {
                    let i = crate::kvlm::first_key_index(
                        k.fields,
                        crate::util::ascii_bytes("parent"@),
                    );
                    let parents = if i >= 0 {
                        k.fields[i].values
                    } else {
                        Seq::empty()
                    };
                    spec_walk_parents(store, sha, parents, seen.push(sha), (fuel - 1) as nat)
                },
                _ => WalkResult::WNotCommit,
            },
        }
    }
}

/// Walks the parents of `src` in order: each contributes the edge
/// `(src, parent)` followed by the edges of its own subwalk.
pub open spec fn spec_walk_parents(
    store: Seq<(Seq<u8>, ObjView)>,
    src: Seq<u8>,
    ps: Seq<Seq<u8>>,
    seen: Seq<Seq<u8>>,
    fuel: nat,
) -> WalkResult
    decreases fuel, 2int, ps.len(),
{
    if ps.len() == 0 {
        WalkResult::WOk(seen, Seq::empty())
    } else {
        match spec_walk(store, ps[0], seen, fuel) {
            WalkResult::WOk(seen2, e2) => match spec_walk_parents(
                store,
                src,
                ps.skip(1),
                seen2,
                fuel,
            ) {
                WalkResult::WOk(seen3, e3) => WalkResult::WOk(
                    seen3,
                    seq![(src, ps[0])] + e2 + e3,
                ),
                other => other,
            },
            other => other,
        }
    }
}

/// A successful walk only extends the visited list, and only with store
/// identifiers.
proof fn lemma_walk_grows(store: Seq<(Seq<u8>, ObjView)>, sha: Seq<u8>, seen: Seq<Seq<u8>>, fuel: nat)
    ensures
        spec_walk(store, sha, seen, fuel) matches WalkResult::WOk(s2, e2) ==> seen.is_prefix_of(s2)
            && (forall|i: int|
            seen.len() <= i < s2.len() ==> contains_bytes(
                store_keys(store),
                #[trigger] s2[i],
            )),
    decreases fuel, 1int, 0int,
{
    if contains_bytes(seen, sha) {
        assert(seen.is_prefix_of(seen)) by {
            assert(seen.take(seen.len() as int) =~= seen);
        }
    } else if fuel > 0 {
        match store_find(store, sha) {
            None => {},
            Some(o) => match o {
                ObjView::CommitV(k) => {
                    let i = crate::kvlm::first_key_index(
                        k.fields,
                        crate::util::ascii_bytes("parent"@),
                    );
                    let parents = if i >= 0 {
                        k.fields[i].values
                    } else {
                        Seq::<Seq<u8>>::empty()
                    };
                    let seen1 = seen.push(sha);
                    lemma_store_find_in_keys(store, sha);
                    lemma_walk_parents_grows(store, sha, parents, seen1, (fuel - 1) as nat);
                    assert(seen.is_prefix_of(seen1)) by {
                        assert(seen1.take(seen.len() as int) =~= seen);
                    }
                    match spec_walk(store, sha, seen, fuel) {
                        WalkResult::WOk(s2, e2) => {
                        assert(seen1.is_prefix_of(s2));
                        assert(seen.is_prefix_of(s2)) by {
                            assert(s2.take(seen.len() as int) =~= seen1.take(seen.len() as int));
                        }
                        assert forall|j: int| seen.len() <= j < s2.len() implies contains_bytes(
                            store_keys(store),
                            #[trigger] s2[j],
                        ) by {
                            if j == seen.len() {
                                assert(s2[j] == seen1[j]);
                                assert(s2[j] == sha);
                            }
                        }
                        },
                        _ => {},
                    }
                },
                _ => {},
            },
        }
    }
}

/// A successful parents walk only extends the visited list, and only with
/// store identifiers.
proof fn lemma_walk_parents_grows(
    store: Seq<(Seq<u8>, ObjView)>,
    src: Seq<u8>,
    ps: Seq<Seq<u8>>,
    seen: Seq<Seq<u8>>,
    fuel: nat,
)
    ensures
        spec_walk_parents(store, src, ps, seen, fuel) matches WalkResult::WOk(s2, e2)
            ==> seen.is_prefix_of(s2) && (forall|i: int|
            seen.len() <= i < s2.len() ==> contains_bytes(
                store_keys(store),
                #[trigger] s2[i],
            )),
    decreases fuel, 2int, ps.len(),
{
    if ps.len() == 0 {
        assert(seen.is_prefix_of(seen)) by {
            assert(seen.take(seen.len() as int) =~= seen);
        }
    } else {
        lemma_walk_grows(store, ps[0], seen, fuel);
        match spec_walk(store, ps[0], seen, fuel) {
            WalkResult::WOk(seen2, e2) => {
                lemma_walk_parents_grows(store, src, ps.skip(1), seen2, fuel);
                match spec_walk_parents(store, src, ps.skip(1), seen2, fuel) {
                    WalkResult::WOk(s3, e3) => {
                    assert(seen.is_prefix_of(s3)) by {
                        assert(s3.take(seen.len() as int) =~= seen2.take(seen.len() as int));
                    }
                    assert forall|i: int| seen.len() <= i < s3.len() implies contains_bytes(
                        store_keys(store),
                        #[trigger] s3[i],
                    ) by {
                        if i < seen2.len() {
                            assert(s3[i] == seen2[i]);
                        }
                    }
                    },
                    _ => {},
                }
            },
            _ => {},
        }
    }
}

/// With one unit of fuel per store identifier not yet visited, the walk
/// never runs out: every fresh visit spends a unit but also claims a fresh
/// store identifier.
proof fn lemma_walk_total(store: Seq<(Seq<u8>, ObjView)>, sha: Seq<u8>, seen: Seq<Seq<u8>>, fuel: nat)
    requires
        fuel + count_in_seen(store_keys(store), seen) > store.len(),
    ensures
        !(spec_walk(store, sha, seen, fuel) is WOut),
    decreases fuel, 1int, 0int,
{
    let keys = store_keys(store);
    lemma_count_bounds(keys, seen);
    if !contains_bytes(seen, sha) {
        assert(fuel > 0);
        match store_find(store, sha) {
            None => {},
            Some(o) => match o {
                ObjView::CommitV(k) => {
                    let i = crate::kvlm::first_key_index(
                        k.fields,
                        crate::util::ascii_bytes("parent"@),
                    );
                    let parents = if i >= 0 {
                        k.fields[i].values
                    } else {
                        Seq::<Seq<u8>>::empty()
                    };
                    let seen1 = seen.push(sha);
                    lemma_store_find_in_keys(store, sha);
                    lemma_count_push_new(keys, seen, sha);
                    lemma_walk_parents_total(store, sha, parents, seen1, (fuel - 1) as nat);
                },
                _ => {},
            },
        }
    }
}

/// The parents walk never runs out of fuel either, under the same budget.
proof fn lemma_walk_parents_total(
    store: Seq<(Seq<u8>, ObjView)>,
    src: Seq<u8>,
    ps: Seq<Seq<u8>>,
    seen: Seq<Seq<u8>>,
    fuel: nat,
)
    requires
        fuel + count_in_seen(store_keys(store), seen) > store.len(),
    ensures
        !(spec_walk_parents(store, src, ps, seen, fuel) is WOut),
    decreases fuel, 2int, ps.len(),
{
    let keys = store_keys(store);
    if ps.len() > 0 {
        lemma_walk_total(store, ps[0], seen, fuel);
        match spec_walk(store, ps[0], seen, fuel) {
            WalkResult::WOk(seen2, e2) => {
                lemma_walk_grows(store, ps[0], seen, fuel);
                lemma_prefix_contains(seen, seen2);
                lemma_count_monotone(keys, seen, seen2);
                lemma_walk_parents_total(store, src, ps.skip(1), seen2, fuel);
            },
            _ => {},
        }
    }
}

/// Walks commit ancestry from `sha`, marking each commit visited at most
/// once and recording one edge per parent of each newly visited commit,
/// exactly as `spec_walk` with the given step budget says. On every path the
/// visited list only grows, never repeats an entry when it started without
/// repeats, and gains only store identifiers that it did not yet hold; every
/// recorded edge leaves from a newly visited commit. On success, the
/// recorded edges of each newly visited commit are exactly its parent list,
/// once, and no other commit gains an edge.
fn walk(
    store: &Vec<(Vec<u8>, WitObject)>,
    sha: Vec<u8>,
    seen: &mut Vec<Vec<u8>>,
    edges: &mut Vec<(Vec<u8>, Vec<u8>)>,
    fuel: usize,
) -> (r: Result<(), WitError>)
    ensures
        ({
            let w = spec_walk(
                store_view(store@),
                sha@,
                crate::kvlm::vals_view(old(seen)@),
                fuel as nat,
            );
            match r {
                Ok(()) => (w matches WalkResult::WOk(s2, e2) && crate::kvlm::vals_view(
                    final(seen)@,
                ) == s2 && files_view(final(edges)@) == files_view(old(edges)@) + e2),
                Err(e) => (w is WMissing && e.error == WitErrorType::IOError) || (w is WNotCommit
                    && e.error == WitErrorType::MalformedObjectError) || (w is WOut),
            }
        }),
        crate::kvlm::vals_view(old(seen)@).is_prefix_of(crate::kvlm::vals_view(final(seen)@)),
        crate::kvlm::vals_view(old(seen)@).no_duplicates() ==> crate::kvlm::vals_view(
            final(seen)@,
        ).no_duplicates(),
        forall|i: int|
            old(seen)@.len() <= i < final(seen)@.len() ==> contains_bytes(
                store_keys(store_view(store@)),
                #[trigger] crate::kvlm::vals_view(final(seen)@)[i],
            ) && !contains_bytes(
                crate::kvlm::vals_view(old(seen)@),
                crate::kvlm::vals_view(final(seen)@)[i],
            ),
        old(edges)@.is_prefix_of(final(edges)@),
        forall|k: int|
            old(edges)@.len() <= k < final(edges)@.len() ==> contains_bytes(
                crate::kvlm::vals_view(final(seen)@),
                (#[trigger] final(edges)@[k]).0@,
            ) && !contains_bytes(crate::kvlm::vals_view(old(seen)@), final(edges)@[k].0@),
        r is Ok ==> contains_bytes(crate::kvlm::vals_view(final(seen)@), sha@),
        r is Ok ==> forall|s: Seq<u8>|
            #[trigger] edges_from(final(edges)@.skip(old(edges)@.len() as int), s) == (
            if contains_bytes(
                crate::kvlm::vals_view(final(seen)@).skip(old(seen)@.len() as int),
                s,
            ) {
                spec_parents(store_view(store@), s)
            } else {
                Seq::<Seq<u8>>::empty()
            }),
    decreases fuel,
{
    let ghost keys = store_keys(store_view(store@));
    let ghost seen0 = crate::kvlm::vals_view(seen@);
    let ghost edges_in = edges@;
    proof {
        lemma_count_bounds(keys, seen0);
        assert(seen0.is_prefix_of(seen0)) by {
            assert(seen0.take(seen0.len() as int) =~= seen0);
        }
        assert(edges_in.is_prefix_of(edges_in)) by {
            assert(edges_in.take(edges_in.len() as int) =~= edges_in);
        }
    }
    if vec_contains_bytes(seen, &sha) {
        proof {
            let ae = edges@.skip(edges_in.len() as int);
            let asn = crate::kvlm::vals_view(seen@).skip(seen0.len() as int);
            assert(ae =~= Seq::<(Vec<u8>, Vec<u8>)>::empty());
            assert(asn =~= Seq::<Seq<u8>>::empty());
            assert forall|s: Seq<u8>| #[trigger] edges_from(ae, s) == (if contains_bytes(asn, s) {
                spec_parents(store_view(store@), s)
            } else {
                Seq::<Seq<u8>>::empty()
            }) by {
                assert(!contains_bytes(asn, s));
            }
            assert(files_view(edges@) + Seq::<(Seq<u8>, Seq<u8>)>::empty() =~= files_view(
                edges@,
            ));
        }
        return Ok(());
    }
    if fuel == 0 {
        return Err(malformed_object_err("Ancestry walk exceeds the step budget.".to_owned()));
    }
    let obj = match store_get(store, &sha) {
        Some(o) => o,
        None => {
            return Err(io_err("Commit not found in the object store.".to_owned()));
        },
    };
    let commit = match obj {
        WitObject::CommitObject(c) => c,
        _ => {
            return Err(malformed_object_err("Ancestry walk reached a non-commit.".to_owned()));
        },
    };
    proof {
        lemma_store_find_in_keys(store_view(store@), sha@);
    }
    let ghost sha_v = sha@;
    seen.push(sha.clone());
    let ghost seen1 = crate::kvlm::vals_view(seen@);
    proof {
        assert(seen1 =~= seen0.push(sha_v));
        lemma_count_push_new(keys, seen0, sha_v);
        assert(seen0.is_prefix_of(seen1)) by {
            assert(seen1.take(seen0.len() as int) =~= seen0);
        }
        assert(seen1[seen0.len() as int] == sha_v);
        assert(contains_bytes(seen1, sha_v));
        assert(seen0.no_duplicates() ==> seen1.no_duplicates());
    }
    proof {
        reveal_strlit("parent");
    }
    let parent_key = crate::util::str_bytes("parent");
    let parents = match commit.kvlm().get(&parent_key) {
        Some(vs) => vs,
        None => {
            proof {
                let ae = edges@.skip(edges_in.len() as int);
                let asn = crate::kvlm::vals_view(seen@).skip(seen0.len() as int);
                assert(ae =~= Seq::<(Vec<u8>, Vec<u8>)>::empty());
                assert(asn =~= seq![sha_v]);
                assert(spec_parents(store_view(store@), sha_v) == Seq::<Seq<u8>>::empty());
                assert forall|s: Seq<u8>| #[trigger] edges_from(ae, s) == (if contains_bytes(
                    asn,
                    s,
                ) {
                    spec_parents(store_view(store@), s)
                } else {
                    Seq::<Seq<u8>>::empty()
                }) by {
                    if contains_bytes(asn, s) {
                        let w = choose|w: int| 0 <= w < asn.len() && asn[w] == s;
                        assert(s == sha_v);
                    }
                }
                let sv = store_view(store@);
                assert(spec_walk_parents(
                    sv,
                    sha_v,
                    Seq::<Seq<u8>>::empty(),
                    seen1,
                    (fuel - 1) as nat,
                ) == WalkResult::WOk(seen1, Seq::<(Seq<u8>, Seq<u8>)>::empty()));
                assert(spec_walk(sv, sha_v, seen0, fuel as nat) == WalkResult::WOk(
                    seen1,
                    Seq::<(Seq<u8>, Seq<u8>)>::empty(),
                ));
                assert(files_view(edges@) + Seq::<(Seq<u8>, Seq<u8>)>::empty() =~= files_view(
                    edges@,
                ));
            }
            return Ok(());
        },
    };
    let ghost pv = crate::kvlm::vals_view(parents@);
    proof {
        assert(pv == spec_parents(store_view(store@), sha_v));
        let ae = edges@.skip(edges_in.len() as int);
        let asn = crate::kvlm::vals_view(seen@).skip(seen0.len() as int);
        assert(ae =~= Seq::<(Vec<u8>, Vec<u8>)>::empty());
        assert(asn =~= seq![sha_v]);
        assert(pv.take(0) =~= Seq::<Seq<u8>>::empty());
        assert forall|s: Seq<u8>| #[trigger] edges_from(ae, s) == (if s == sha_v {
            pv.take(0)
        } else if contains_bytes(asn, s) {
            spec_parents(store_view(store@), s)
        } else {
            Seq::<Seq<u8>>::empty()
        }) by {
            if s != sha_v && contains_bytes(asn, s) {
                let w = choose|w: int| 0 <= w < asn.len() && asn[w] == s;
                assert(s == sha_v);
            }
        }
        let sv = store_view(store@);
        let f1 = (fuel - 1) as nat;
        assert(spec_walk(sv, sha_v, seen0, fuel as nat) == spec_walk_parents(
            sv,
            sha_v,
            pv,
            seen1,
            f1,
        ));
        assert(pv.skip(0) =~= pv);
        assert(files_view(edges@).skip(edges_in.len() as int) =~= Seq::<(Seq<u8>, Seq<u8>)>::empty());
        match spec_walk_parents(sv, sha_v, pv, seen1, f1) {
            WalkResult::WOk(s2, e2) => {
                assert(Seq::<(Seq<u8>, Seq<u8>)>::empty() + e2 =~= e2);
            },
            _ => {},
        }
    }
    let mut j: usize = 0;
    while j < parents.len()
        invariant
            j <= parents@.len(),
            1 <= fuel,
            keys == store_keys(store_view(store@)),
            seen0 == crate::kvlm::vals_view(old(seen)@),
            edges_in == old(edges)@,
            sha_v == sha@,
            seen1 == seen0.push(sha_v),
            pv == crate::kvlm::vals_view(parents@),
            pv == spec_parents(store_view(store@), sha_v),
            (spec_walk_parents(
                store_view(store@),
                sha_v,
                pv.skip(j as int),
                crate::kvlm::vals_view(seen@),
                (fuel - 1) as nat,
            ) matches WalkResult::WOk(s2, e2) ==> spec_walk(
                store_view(store@),
                sha_v,
                seen0,
                fuel as nat,
            ) == WalkResult::WOk(s2, files_view(edges@).skip(edges_in.len() as int) + e2)),
            (spec_walk_parents(
                store_view(store@),
                sha_v,
                pv.skip(j as int),
                crate::kvlm::vals_view(seen@),
                (fuel - 1) as nat,
            ) is WMissing ==> spec_walk(store_view(store@), sha_v, seen0, fuel as nat)
                is WMissing),
            (spec_walk_parents(
                store_view(store@),
                sha_v,
                pv.skip(j as int),
                crate::kvlm::vals_view(seen@),
                (fuel - 1) as nat,
            ) is WNotCommit ==> spec_walk(store_view(store@), sha_v, seen0, fuel as nat)
                is WNotCommit),
            (spec_walk_parents(
                store_view(store@),
                sha_v,
                pv.skip(j as int),
                crate::kvlm::vals_view(seen@),
                (fuel - 1) as nat,
            ) is WOut ==> spec_walk(store_view(store@), sha_v, seen0, fuel as nat) is WOut),
            forall|s: Seq<u8>|
                #[trigger] edges_from(edges@.skip(edges_in.len() as int), s) == (if s == sha_v {
                    pv.take(j as int)
                } else if contains_bytes(
                    crate::kvlm::vals_view(seen@).skip(seen0.len() as int),
                    s,
                ) {
                    spec_parents(store_view(store@), s)
                } else {
                    Seq::<Seq<u8>>::empty()
                }),
            !contains_bytes(seen0, sha_v),
            contains_bytes(keys, sha_v),
            count_in_seen(keys, crate::kvlm::vals_view(seen@)) >= count_in_seen(keys, seen0) + 1,
            seen1.is_prefix_of(crate::kvlm::vals_view(seen@)),
            seen0.is_prefix_of(crate::kvlm::vals_view(seen@)),
            seen0.no_duplicates() ==> crate::kvlm::vals_view(seen@).no_duplicates(),
            forall|i: int|
                seen0.len() <= i < crate::kvlm::vals_view(seen@).len() ==> contains_bytes(
                    keys,
                    #[trigger] crate::kvlm::vals_view(seen@)[i],
                ) && !contains_bytes(seen0, crate::kvlm::vals_view(seen@)[i]),
            edges_in.is_prefix_of(edges@),
            forall|k: int|
                edges_in.len() <= k < edges@.len() ==> contains_bytes(
                    crate::kvlm::vals_view(seen@),
                    (#[trigger] edges@[k]).0@,
                ) && !contains_bytes(seen0, edges@[k].0@),
            contains_bytes(crate::kvlm::vals_view(seen@), sha_v),
        decreases parents@.len() - j,
    {
        let p = clone_bytes(&parents[j]);
        let sha_again = clone_bytes(&sha);
        let ghost pre_seen = crate::kvlm::vals_view(seen@);
        let ghost pre_edges = edges@;
        edges.push((sha_again, p));
        let ghost mid_edges = edges@;
        let p2 = clone_bytes(&parents[j]);
        proof {
            assert(pre_edges.is_prefix_of(mid_edges)) by {
                assert(mid_edges.take(pre_edges.len() as int) =~= pre_edges);
            }
            assert(edges_in.is_prefix_of(mid_edges)) by {
                assert(mid_edges.take(edges_in.len() as int) =~= pre_edges.take(
                    edges_in.len() as int,
                ));
            }
            assert(mid_edges[pre_edges.len() as int].0@ == sha_v);
            assert forall|k: int| edges_in.len() <= k < mid_edges.len() implies contains_bytes(
                pre_seen,
                (#[trigger] mid_edges[k]).0@,
            ) && !contains_bytes(seen0, mid_edges[k].0@) by {
                if k < pre_edges.len() {
                    assert(mid_edges[k] == pre_edges[k]);
                } else {
                    assert(mid_edges[k].0@ == sha_v);
                }
            }
            lemma_count_bounds(keys, pre_seen);
            lemma_prefix_contains(seen0, pre_seen);
            lemma_count_monotone(keys, seen0, pre_seen);
            // one more edge of `sha` brings its recorded targets to j + 1
            let ae_pre = pre_edges.skip(edges_in.len() as int);
            let ae_mid = mid_edges.skip(edges_in.len() as int);
            let e_new = mid_edges[mid_edges.len() - 1];
            assert(ae_mid =~= ae_pre + seq![e_new]);
            assert(e_new.1@ == pv[j as int]);
            let asn_pre = pre_seen.skip(seen0.len() as int);
            assert forall|s: Seq<u8>| #[trigger] edges_from(ae_mid, s) == (if s == sha_v {
                pv.take(j + 1)
            } else if contains_bytes(asn_pre, s) {
                spec_parents(store_view(store@), s)
            } else {
                Seq::<Seq<u8>>::empty()
            }) by {
                lemma_edges_from_concat(ae_pre, seq![e_new], s);
                assert(e_new == mid_edges[pre_edges.len() as int]);
                assert(e_new.0@ == sha_v);
                assert(seq![e_new].skip(1) =~= Seq::<(Vec<u8>, Vec<u8>)>::empty());
                assert(edges_from(Seq::<(Vec<u8>, Vec<u8>)>::empty(), s) == Seq::<
                    Seq<u8>,
                >::empty());
                if s == sha_v {
                    assert(edges_from(seq![e_new], s) =~= seq![pv[j as int]]);
                    assert(pv.take(j as int) + seq![pv[j as int]] =~= pv.take(j + 1));
                } else {
                    assert(edges_from(seq![e_new], s) =~= Seq::<Seq<u8>>::empty());
                    assert(edges_from(ae_pre, s) + Seq::<Seq<u8>>::empty() =~= edges_from(
                        ae_pre,
                        s,
                    ));
                }
            }
        }
        match walk(store, p2, seen, edges, fuel - 1) {
            Ok(()) => {},
            Err(e) => {
                proof {
                    graphviz_compose(
                        seen0,
                        seen1,
                        pre_seen,
                        crate::kvlm::vals_view(seen@),
                        keys,
                        edges_in,
                        mid_edges,
                        edges@,
                        sha_v,
                    );
                    let sv = store_view(store@);
                    let f1 = (fuel - 1) as nat;
                    assert(pv.skip(j as int)[0] == pv[j as int]);
                    assert(!(spec_walk(sv, pv[j as int], pre_seen, f1) is WOk));
                    assert(spec_walk_parents(sv, sha_v, pv.skip(j as int), pre_seen, f1)
                        == spec_walk(sv, pv[j as int], pre_seen, f1));
                }
                return Err(e);
            },
        }
        proof {
            graphviz_compose(
                seen0,
                seen1,
                pre_seen,
                crate::kvlm::vals_view(seen@),
                keys,
                edges_in,
                mid_edges,
                edges@,
                sha_v,
            );
            lemma_prefix_contains(pre_seen, crate::kvlm::vals_view(seen@));
            lemma_count_monotone(keys, pre_seen, crate::kvlm::vals_view(seen@));
            // fold the callee's edge accounting into this call's
            let post_seen = crate::kvlm::vals_view(seen@);
            let ae_mid = mid_edges.skip(edges_in.len() as int);
            let child_e = edges@.skip(mid_edges.len() as int);
            let asn_pre = pre_seen.skip(seen0.len() as int);
            let child_s = post_seen.skip(pre_seen.len() as int);
            assert forall|i: int| 0 <= i < child_s.len() implies !contains_bytes(
                pre_seen,
                #[trigger] child_s[i],
            ) by {
                assert(child_s[i] == post_seen[pre_seen.len() + i]);
            }
            assert forall|x: Seq<u8>| contains_bytes(asn_pre, x) implies #[trigger] contains_bytes(
                pre_seen,
                x,
            ) by {
                let w = choose|w: int| 0 <= w < asn_pre.len() && asn_pre[w] == x;
                assert(pre_seen[seen0.len() + w] == x);
            }
            walker_edges_compose(
                ae_mid,
                child_e,
                asn_pre,
                child_s,
                pre_seen,
                store_view(store@),
                sha_v,
                pv.take(j + 1),
            );
            assert(mid_edges.is_prefix_of(edges@));
            assert(edges@.skip(edges_in.len() as int) =~= ae_mid + child_e);
            assert(post_seen.skip(seen0.len() as int) =~= asn_pre + child_s);
            // stitch the spec walk across the call
            let sv2 = store_view(store@);
            let f1 = (fuel - 1) as nat;
            assert(pv.skip(j as int)[0] == pv[j as int]);
            assert(pv.skip(j as int).skip(1) =~= pv.skip(j + 1));
            let w_c = spec_walk(sv2, pv[j as int], pre_seen, f1);
            match w_c {
                WalkResult::WOk(s2c, e2c) => {
                    assert(crate::kvlm::vals_view(seen@) == s2c);
                    assert(files_view(edges@) == files_view(mid_edges) + e2c);
                    assert(files_view(mid_edges) =~= files_view(pre_edges).push(
                        (sha_v, pv[j as int]),
                    ));
                    let a_pre = files_view(pre_edges).skip(edges_in.len() as int);
                    let a_new = files_view(edges@).skip(edges_in.len() as int);
                    assert(a_new =~= a_pre + seq![(sha_v, pv[j as int])] + e2c);
                    match spec_walk_parents(sv2, sha_v, pv.skip(j + 1), s2c, f1) {
                        WalkResult::WOk(s3, e3) => {
                            assert(spec_walk_parents(sv2, sha_v, pv.skip(j as int), pre_seen, f1)
                                == WalkResult::WOk(s3, seq![(sha_v, pv[j as int])] + e2c + e3));
                            assert(a_pre + (seq![(sha_v, pv[j as int])] + e2c + e3) =~= a_new + e3);
                        },
                        _ => {
                            assert(spec_walk_parents(sv2, sha_v, pv.skip(j as int), pre_seen, f1)
                                == spec_walk_parents(sv2, sha_v, pv.skip(j + 1), s2c, f1));
                        },
                    }
                },
                _ => {
                    assert(false);
                },
            }
        }
        j = j + 1;
    }
    proof {
        let sv = store_view(store@);
        let f1 = (fuel - 1) as nat;
        assert(pv.skip(j as int) =~= Seq::<Seq<u8>>::empty());
        assert(spec_walk_parents(
            sv,
            sha_v,
            Seq::<Seq<u8>>::empty(),
            crate::kvlm::vals_view(seen@),
            f1,
        ) == WalkResult::WOk(
            crate::kvlm::vals_view(seen@),
            Seq::<(Seq<u8>, Seq<u8>)>::empty(),
        ));
        let a = files_view(edges@).skip(edges_in.len() as int);
        assert(a + Seq::<(Seq<u8>, Seq<u8>)>::empty() =~= a);
        assert(files_view(edges@) =~= files_view(edges_in) + a);
    }
    proof {
        let asn = crate::kvlm::vals_view(seen@).skip(seen0.len() as int);
        assert(crate::kvlm::vals_view(seen@)[seen0.len() as int] == seen1[seen0.len() as int]);
        assert(asn[0] == sha_v);
        assert(contains_bytes(asn, sha_v));
        assert(pv.take(j as int) =~= pv);
        assert forall|s: Seq<u8>| #[trigger] edges_from(edges@.skip(edges_in.len() as int), s) == (
        if contains_bytes(asn, s) {
            spec_parents(store_view(store@), s)
        } else {
            Seq::<Seq<u8>>::empty()
        }) by {
            if s == sha_v {
                assert(edges_from(edges@.skip(edges_in.len() as int), s) == pv);
            }
        }
    }
    Ok(())
}

/// Walks commit ancestry from `sha`: exactly the walk that `spec_walk`
/// describes with a budget of one step per store entry plus one, which no
/// walk over this store can exhaust. Success and failure are fixed by the
/// inputs: an already-visited start succeeds and changes nothing; a missing
/// identifier on the walk is an I/O error; a non-commit on the walk is a
/// malformed-object error. The visited list never repeats an entry when it
/// started without repeats and gains only store identifiers that it did not
/// yet hold; on success the recorded edges of each newly visited commit are
/// exactly its parent list, once, and no other commit gains an edge.
pub fn graphviz(
    store: &Vec<(Vec<u8>, WitObject)>,
    sha: Vec<u8>,
    seen: &mut Vec<Vec<u8>>,
    edges: &mut Vec<(Vec<u8>, Vec<u8>)>,
) -> (r: Result<(), WitError>)
    requires
        store@.len() < usize::MAX,
    ensures
        ({
            let w = spec_walk(
                store_view(store@),
                sha@,
                crate::kvlm::vals_view(old(seen)@),
                (store@.len() + 1) as nat,
            );
            match r {
                Ok(()) => (w matches WalkResult::WOk(s2, e2) && crate::kvlm::vals_view(
                    final(seen)@,
                ) == s2 && files_view(final(edges)@) == files_view(old(edges)@) + e2),
                Err(e) => (w is WMissing && e.error == WitErrorType::IOError) || (w is WNotCommit
                    && e.error == WitErrorType::MalformedObjectError),
            }
        }),
        crate::kvlm::vals_view(old(seen)@).is_prefix_of(crate::kvlm::vals_view(final(seen)@)),
        crate::kvlm::vals_view(old(seen)@).no_duplicates() ==> crate::kvlm::vals_view(
            final(seen)@,
        ).no_duplicates(),
        forall|i: int|
            old(seen)@.len() <= i < final(seen)@.len() ==> contains_bytes(
                store_keys(store_view(store@)),
                #[trigger] crate::kvlm::vals_view(final(seen)@)[i],
            ) && !contains_bytes(
                crate::kvlm::vals_view(old(seen)@),
                crate::kvlm::vals_view(final(seen)@)[i],
            ),
        old(edges)@.is_prefix_of(final(edges)@),
        forall|k: int|
            old(edges)@.len() <= k < final(edges)@.len() ==> contains_bytes(
                crate::kvlm::vals_view(final(seen)@),
                (#[trigger] final(edges)@[k]).0@,
            ) && !contains_bytes(crate::kvlm::vals_view(old(seen)@), final(edges)@[k].0@),
        r is Ok ==> contains_bytes(crate::kvlm::vals_view(final(seen)@), sha@),
        r is Ok ==> forall|s: Seq<u8>|
            #[trigger] edges_from(final(edges)@.skip(old(edges)@.len() as int), s) == (
            if contains_bytes(
                crate::kvlm::vals_view(final(seen)@).skip(old(seen)@.len() as int),
                s,
            ) {
                spec_parents(store_view(store@), s)
            } else {
                Seq::<Seq<u8>>::empty()
            }),
{
    proof {
        lemma_count_bounds(store_keys(store_view(store@)), crate::kvlm::vals_view(seen@));
        lemma_walk_total(
            store_view(store@),
            sha@,
            crate::kvlm::vals_view(seen@),
            (store@.len() + 1) as nat,
        );
    }
    let fuel = store.len() + 1;
    walk(store, sha, seen, edges, fuel)
}

/// Clones a byte vector.
pub fn clone_bytes(v: &Vec<u8>) -> (r: Vec<u8>)
    ensures
        r@ == v@,
{
    let mut r: Vec<u8> = Vec::new();
    r.extend_from_slice(v.as_slice());
    proof {
        assert(r@ =~= v@);
    }
    r
}

/// Stitches the walker's facts across one recursive call: prefixes compose,
/// freshly visited entries stay fresh store keys, and recorded edges keep
/// leaving from newly visited commits.
proof fn graphviz_compose(
    seen0: Seq<Seq<u8>>,
    seen1: Seq<Seq<u8>>,
    pre: Seq<Seq<u8>>,
    post: Seq<Seq<u8>>,
    keys: Seq<Seq<u8>>,
    edges_in: Seq<(Vec<u8>, Vec<u8>)>,
    mid_edges: Seq<(Vec<u8>, Vec<u8>)>,
    post_edges: Seq<(Vec<u8>, Vec<u8>)>,
    sha_v: Seq<u8>,
)
    requires
        seen0.is_prefix_of(seen1),
        seen1.is_prefix_of(pre),
        pre.is_prefix_of(post),
        seen1 == seen0.push(sha_v),
        seen0.no_duplicates() ==> pre.no_duplicates(),
        pre.no_duplicates() ==> post.no_duplicates(),
        forall|i: int|
            seen0.len() <= i < pre.len() ==> contains_bytes(keys, #[trigger] pre[i])
                && !contains_bytes(seen0, pre[i]),
        forall|i: int|
            pre.len() <= i < post.len() ==> contains_bytes(keys, #[trigger] post[i])
                && !contains_bytes(pre, post[i]),
        edges_in.is_prefix_of(mid_edges),
        mid_edges.is_prefix_of(post_edges),
        forall|k: int|
            edges_in.len() <= k < mid_edges.len() ==> contains_bytes(
                pre,
                (#[trigger] mid_edges[k]).0@,
            ) && !contains_bytes(seen0, mid_edges[k].0@),
        forall|k: int|
            mid_edges.len() <= k < post_edges.len() ==> contains_bytes(
                post,
                (#[trigger] post_edges[k]).0@,
            ) && !contains_bytes(pre, post_edges[k].0@),
        contains_bytes(pre, sha_v),
    ensures
        seen1.is_prefix_of(post),
        seen0.is_prefix_of(post),
        seen0.no_duplicates() ==> post.no_duplicates(),
        forall|i: int|
            seen0.len() <= i < post.len() ==> contains_bytes(keys, #[trigger] post[i])
                && !contains_bytes(seen0, post[i]),
        edges_in.is_prefix_of(post_edges),
        forall|k: int|
            edges_in.len() <= k < post_edges.len() ==> contains_bytes(
                post,
                (#[trigger] post_edges[k]).0@,
            ) && !contains_bytes(seen0, post_edges[k].0@),
        contains_bytes(post, sha_v),
{
    lemma_prefix_contains(seen0, seen1);
    lemma_prefix_contains(seen1, pre);
    lemma_prefix_contains(pre, post);
    assert(seen1.is_prefix_of(post)) by {
        assert(post.take(seen1.len() as int) =~= pre.take(seen1.len() as int));
    }
    assert(seen0.is_prefix_of(post)) by {
        assert(post.take(seen0.len() as int) =~= seen1.take(seen0.len() as int));
    }
    assert(edges_in.is_prefix_of(post_edges)) by {
        assert(post_edges.take(edges_in.len() as int) =~= mid_edges.take(edges_in.len() as int));
    }
    assert forall|i: int| seen0.len() <= i < post.len() implies contains_bytes(
        keys,
        #[trigger] post[i],
    ) && !contains_bytes(seen0, post[i]) by {
        if i < pre.len() {
            assert(post[i] == pre[i]);
        } else {
            if contains_bytes(seen0, post[i]) {
                let w = choose|w: int| 0 <= w < seen0.len() && seen0[w] == post[i];
                assert(pre[w] == seen0[w]);
                assert(contains_bytes(pre, post[i]));
            }
        }
    }
    assert forall|k: int| edges_in.len() <= k < post_edges.len() implies contains_bytes(
        post,
        (#[trigger] post_edges[k]).0@,
    ) && !contains_bytes(seen0, post_edges[k].0@) by {
        if k < mid_edges.len() {
            assert(post_edges[k] == mid_edges[k]);
            assert(contains_bytes(pre, mid_edges[k].0@));
        } else {
            if contains_bytes(seen0, post_edges[k].0@) {
                let w = choose|w: int| 0 <= w < seen0.len() && seen0[w] == post_edges[k].0@;
                assert(pre[w] == seen0[w]);
                assert(contains_bytes(pre, post_edges[k].0@));
            }
        }
    }
}


// ---------------------------------------------------------------------------
// The materializer
// ---------------------------------------------------------------------------

/// View of a list of files to write: path and content.
pub open spec fn files_view(fs: Seq<(Vec<u8>, Vec<u8>)>) -> Seq<(Seq<u8>, Seq<u8>)> {
    Seq::new(fs.len(), |i: int| (fs[i].0@, fs[i].1@))
}

/// The outcome of materializing a tree.
pub enum CheckoutResult {
    /// The files to write (path, content) and the directories to create.
    COk(Seq<(Seq<u8>, Seq<u8>)>, Seq<Seq<u8>>),
    /// A leaf's digest is not in the store.
    CMissing,
    /// A leaf resolves to a commit or tag.
    CWrongKind,
    /// The nesting exceeds the step budget.
    COut,
}

/// The files and directories that materializing `leaves` under `dest`
/// produces: a blob leaf becomes a file at `dest/<path>` holding the blob's
/// bytes; a tree leaf becomes a directory there, filled recursively. A leaf
/// whose digest is not in the store, or resolves to a commit or tag, fails
/// with its own outcome; so does nesting deeper than `fuel`.
pub open spec fn spec_checkout(
    store: Seq<(Seq<u8>, ObjView)>,
    leaves: Seq<SpecLeaf>,
    dest: Seq<u8>,
    fuel: nat,
) -> CheckoutResult
    decreases fuel, leaves.len(),
{
    if leaves.len() == 0 {
        CheckoutResult::COk(Seq::empty(), Seq::empty())
    } else {
        let l = leaves[0];
        let child = dest + seq![47u8] + l.path;
        match store_find(store, hex_bytes_of(l.sha)) {
            None => CheckoutResult::CMissing,
            Some(o) => match o {
                ObjView::BlobV(d) => match spec_checkout(store, leaves.skip(1), dest, fuel) {
                    CheckoutResult::COk(fs, ds) => CheckoutResult::COk(seq![(child, d)] + fs, ds),
                    other => other,
                },
                ObjView::TreeV(sub) => {
                    if fuel == 0 {
                        CheckoutResult::COut
                    } else {
                        match spec_checkout(store, sub, child, (fuel - 1) as nat) {
                            CheckoutResult::COk(sf, sd) => match spec_checkout(
                                store,
                                leaves.skip(1),
                                dest,
                                fuel,
                            ) {
                                CheckoutResult::COk(fs, ds) => CheckoutResult::COk(
                                    sf + fs,
                                    seq![child] + sd + ds,
                                ),
                                other => other,
                            },
                            other => other,
                        }
                    }
                },
                _ => CheckoutResult::CWrongKind,
            },
        }
    }
}

/// Joins `dest/<path component>`.
fn child_path(dest: &Vec<u8>, component: &Vec<u8>) -> (r: Vec<u8>)
    ensures
        r@ == dest@ + seq![47u8] + component@,
{
    let mut r = clone_bytes(dest);
    r.push(47);
    r.extend_from_slice(component.as_slice());
    proof {
        assert(r@ =~= dest@ + seq![47u8] + component@);
    }
    r
}

fn checkout_fuel(
    store: &Vec<(Vec<u8>, WitObject)>,
    tree: &Tree,
    path: &Vec<u8>,
    fuel: usize,
) -> (r: Result<(Vec<(Vec<u8>, Vec<u8>)>, Vec<Vec<u8>>), WitError>)
    ensures
        ({
            let w = spec_checkout(store_view(store@), tree@, path@, fuel as nat);
            match r {
                Ok(out) => (w matches CheckoutResult::COk(fs, ds) && files_view(out.0@) == fs
                    && crate::kvlm::vals_view(out.1@) == ds),
                Err(e) => (w is CMissing && e.error == WitErrorType::IOError) || (w is CWrongKind
                    && e.error == WitErrorType::MalformedObjectError) || (w is COut && e.error
                    == WitErrorType::MalformedObjectError),
            }
        }),
    decreases fuel,
{
    let ghost sv = store_view(store@);
    let ghost lv = tree@;
    let ghost dest = path@;
    let mut files: Vec<(Vec<u8>, Vec<u8>)> = Vec::new();
    let mut dirs: Vec<Vec<u8>> = Vec::new();
    let leaves = tree.leaves();
    let mut i: usize = 0;
    proof {
        assert(lv.skip(0) =~= lv);
        assert(files_view(files@) =~= Seq::<(Seq<u8>, Seq<u8>)>::empty());
        assert(crate::kvlm::vals_view(dirs@) =~= Seq::<Seq<u8>>::empty());
        match spec_checkout(sv, lv, dest, fuel as nat) {
            CheckoutResult::COk(fs, ds) => {
                assert(Seq::<(Seq<u8>, Seq<u8>)>::empty() + fs =~= fs);
                assert(Seq::<Seq<u8>>::empty() + ds =~= ds);
            },
            _ => {},
        }
    }
    while i < leaves.len()
        invariant
            i <= leaves@.len(),
            sv == store_view(store@),
            lv == crate::tree::leaves_view(leaves@),
            lv == tree@,
            dest == path@,
            lv.len() == leaves@.len(),
            fuel <= usize::MAX,
            (spec_checkout(sv, lv.skip(i as int), dest, fuel as nat) matches CheckoutResult::COk(
                fs,
                ds,
            ) ==> spec_checkout(sv, lv, dest, fuel as nat) == CheckoutResult::COk(
                files_view(files@) + fs,
                crate::kvlm::vals_view(dirs@) + ds,
            )),
            (spec_checkout(sv, lv.skip(i as int), dest, fuel as nat) is CMissing
                ==> spec_checkout(sv, lv, dest, fuel as nat) is CMissing),
            (spec_checkout(sv, lv.skip(i as int), dest, fuel as nat) is CWrongKind
                ==> spec_checkout(sv, lv, dest, fuel as nat) is CWrongKind),
            (spec_checkout(sv, lv.skip(i as int), dest, fuel as nat) is COut ==> spec_checkout(
                sv,
                lv,
                dest,
                fuel as nat,
            ) is COut),
        decreases leaves@.len() - i,
    {
        let ghost t = lv.skip(i as int);
        let ghost pre_files = files_view(files@);
        let ghost pre_dirs = crate::kvlm::vals_view(dirs@);
        proof {
            assert(t[0] == lv[i as int]);
            assert(t.skip(1) =~= lv.skip(i + 1));
            assert(lv[i as int] == leaves@[i as int]@);
        }
        let leaf = &leaves[i];
        let key = hex_bytes(leaf.sha());
        let child = child_path(path, leaf.path());
        let ghost child_v = child@;
        let obj = match store_get(store, &key) {
            Some(o) => o,
            None => {
                return Err(io_err("Tree leaf names an object that is not stored.".to_owned()));
            },
        };
        match obj {
            WitObject::BlobObject(b) => {
                files.push((child, clone_bytes(b.data())));
                proof {
                    assert(files_view(files@) =~= pre_files.push((child_v, b@)));
                    match spec_checkout(sv, lv.skip(i + 1), dest, fuel as nat) {
                        CheckoutResult::COk(fs, ds) => {
                            assert(pre_files + (seq![(child_v, b@)] + fs) =~= files_view(files@)
                                + fs);
                        },
                        _ => {},
                    }
                }
            },
            WitObject::TreeObject(sub) => {
                if fuel == 0 {
                    return Err(
                        malformed_object_err("Tree nesting exceeds the object count.".to_owned()),
                    );
                }
                let (mut sf, mut sd) = match checkout_fuel(store, sub, &child, fuel - 1) {
                    Ok(out) => out,
                    Err(e) => {
                        return Err(e);
                    },
                };
                let ghost sf_v = files_view(sf@);
                let ghost sd_v = crate::kvlm::vals_view(sd@);
                files.append(&mut sf);
                dirs.push(child);
                dirs.append(&mut sd);
                proof {
                    assert(files_view(files@) =~= pre_files + sf_v);
                    assert(crate::kvlm::vals_view(dirs@) =~= pre_dirs + (seq![child_v] + sd_v));
                    match spec_checkout(sv, lv.skip(i + 1), dest, fuel as nat) {
                        CheckoutResult::COk(fs, ds) => {
                            assert(pre_files + (sf_v + fs) =~= files_view(files@) + fs);
                            assert(pre_dirs + (seq![child_v] + sd_v + ds)
                                =~= crate::kvlm::vals_view(dirs@) + ds);
                        },
                        _ => {},
                    }
                }
            },
            _ => {
                return Err(
                    malformed_object_err("Tree leaf resolves to a commit or tag.".to_owned()),
                );
            },
        }
        i = i + 1;
    }
    proof {
        assert(lv.skip(i as int) =~= Seq::<SpecLeaf>::empty());
        assert(spec_checkout(sv, lv.skip(i as int), dest, fuel as nat) == CheckoutResult::COk(
            Seq::<(Seq<u8>, Seq<u8>)>::empty(),
            Seq::<Seq<u8>>::empty(),
        ));
        assert(files_view(files@) + Seq::<(Seq<u8>, Seq<u8>)>::empty() =~= files_view(files@));
        assert(crate::kvlm::vals_view(dirs@) + Seq::<Seq<u8>>::empty() =~= crate::kvlm::vals_view(
            dirs@,
        ));
    }
    Ok((files, dirs))
}

/// Materializes a tree into the files to write and the directories to
/// create, resolving each leaf in the given store, exactly as
/// `spec_checkout` with a budget of one level per store entry plus one says
/// — depth any store without reference cycles stays within. A missing
/// object is an I/O error; a commit or tag under a tree leaf, or nesting
/// past the budget, is a malformed-object error.
pub fn checkout(store: &Vec<(Vec<u8>, WitObject)>, tree: &Tree, path: &Vec<u8>) -> (r: Result<
    (Vec<(Vec<u8>, Vec<u8>)>, Vec<Vec<u8>>),
    WitError,
>)
    requires
        store@.len() < usize::MAX,
    ensures
        ({
            let w = spec_checkout(store_view(store@), tree@, path@, (store@.len() + 1) as nat);
            match r {
                Ok(out) => (w matches CheckoutResult::COk(fs, ds) && files_view(out.0@) == fs
                    && crate::kvlm::vals_view(out.1@) == ds),
                Err(e) => (w is CMissing && e.error == WitErrorType::IOError) || (w is CWrongKind
                    && e.error == WitErrorType::MalformedObjectError) || (w is COut && e.error
                    == WitErrorType::MalformedObjectError),
            }
        }),
{
    let fuel = store.len() + 1;
    checkout_fuel(store, tree, path, fuel)
}


/// The four type tags differ pairwise.
proof fn lemma_tags_distinct()
    ensures
        spec_blob_tag() != spec_commit_tag(),
        spec_blob_tag() != spec_tree_tag(),
        spec_blob_tag() != spec_tag_tag(),
        spec_commit_tag() != spec_tree_tag(),
        spec_commit_tag() != spec_tag_tag(),
        spec_tree_tag() != spec_tag_tag(),
{
    assert(spec_blob_tag()[0] == 98 && spec_tree_tag()[0] == 116 && spec_commit_tag()[0] == 99
        && spec_tag_tag()[0] == 116);
    assert(spec_tree_tag().len() == 4 && spec_tag_tag().len() == 3);
    assert(spec_blob_tag().len() == 4 && spec_commit_tag().len() == 6);
}

} // verus!
