//! The object envelope: the bytes `<kind> <size>\0<content>` that are hashed
//! and compressed when an object is written, and parsed when it is read.

use crate::bytes::{
    append_range, copy_range, find_from, first_index, lemma_first_from, lemma_first_from_is,
};
use crate::decimal::{
    decimal, is_digit, lemma_decimal_digits, lemma_decimal_round_trip, parse_decimal, parse_u64,
    write_decimal,
};
use crate::digest::{sha1_digest, ObjectDigest};
use crate::error::Error;
use crate::kind::ObjectKind;
use crate::transport::{
    compress, deflated, effective_level, inflated, zlib_inflate, DEFAULT_LEVEL,
};
use vstd::prelude::*;
use vstd::slice::slice_subrange;
use vstd::utf8::*;

verus! {

/// The byte that separates the kind from the size in a header.
pub const SPACE: u8 = 0x20;

/// The byte that ends a header.
pub const NUL: u8 = 0;

/// The header of an object of the given kind and size.
pub open spec fn header(kind: ObjectKind, size: nat) -> Seq<u8> {
    kind.name().push(SPACE) + decimal(size).push(NUL)
}

/// The envelope of `content` stored under the given kind: its header, then
/// the content itself.
pub open spec fn envelope(kind: ObjectKind, content: Seq<u8>) -> Seq<u8> {
    header(kind, content.len()) + content
}

/// The digest under which `content` is stored as an object of the given kind.
pub open spec fn object_id(kind: ObjectKind, content: Seq<u8>) -> Seq<u8> {
    sha1_digest(envelope(kind, content))
}

/// A transient handle on an object: its kind, the size it declares, and the
/// bytes that its content stream yields.
#[derive(Clone, Debug, PartialEq, Eq)]
pub struct Object {
    pub kind: ObjectKind,
    pub expected_size: u64,
    pub content: Vec<u8>,
}

/// The mathematical value of an `Object`.
pub struct ObjectView {
    pub kind: ObjectKind,
    pub expected_size: u64,
    pub content: Seq<u8>,
}

impl View for Object {
    type V = ObjectView;

    open spec fn view(&self) -> ObjectView {
        ObjectView { kind: self.kind, expected_size: self.expected_size, content: self.content@ }
    }
}

impl ObjectView {
    /// Whether the content holds at least as many bytes as the size declares.
    pub open spec fn complete(self) -> bool {
        self.expected_size <= self.content.len()
    }

    /// The declared prefix of the content: the bytes that belong to the
    /// object.
    pub open spec fn payload(self) -> Seq<u8> {
        self.content.take(self.expected_size as int)
    }

    /// The envelope that is hashed and compressed when the object is written.
    pub open spec fn envelope(self) -> Seq<u8> {
        header(self.kind, self.expected_size as nat) + self.payload()
    }
}

/// An object as it is stored: its digest and its compressed envelope.
#[derive(Clone, Debug, PartialEq, Eq)]
pub struct StoredObject {
    pub digest: ObjectDigest,
    pub compressed: Vec<u8>,
}

impl StoredObject {
    /// Whether this is a stored form of `envelope`: it carries the digest of
    /// the envelope, and decompressing it gives the envelope back.
    pub open spec fn holds(self, envelope: Seq<u8>) -> bool {
        &&& self.digest@ == sha1_digest(envelope)
        &&& inflated(self.compressed@) == Some(envelope)
    }
}

/// What the header of a decompressed stream says: the kind, the declared
/// size, and the index at which the content starts.
#[derive(Clone, Copy, Debug, PartialEq, Eq, Structural)]
pub struct Header {
    pub kind: ObjectKind,
    pub size: u64,
    pub body: usize,
}

/// Reads the kind and the declared size from the header at the start of a
/// decompressed stream.
///
/// The header runs up to the first NUL. It must be valid UTF-8 and hold a
/// space; what stands before the first space names the kind, what stands
/// after it is the size.
pub open spec fn parse_envelope(stream: Seq<u8>) -> Result<(ObjectKind, u64), Error> {
    let end = first_index(stream, NUL);
    let text = stream.take(end);
    let gap = first_index(text, SPACE);
    if end >= stream.len() {
        Err(Error::HeaderUnterminated)
    } else if !valid_utf8(text) {
        Err(Error::HeaderNotText)
    } else if gap >= text.len() {
        Err(Error::HeaderNoSeparator)
    } else {
        match (ObjectKind::named(text.take(gap)), parse_decimal(text.skip(gap + 1))) {
            (None, _) => Err(Error::UnsupportedKind),
            (Some(_), None) => Err(Error::MalformedSize),
            (Some(kind), Some(size)) => Ok((kind, size)),
        }
    }
}

/// The index at which the content of a decompressed stream starts: one past
/// the first NUL.
pub open spec fn body_start(stream: Seq<u8>) -> int {
    first_index(stream, NUL) + 1
}

/// What follows the header of a decompressed stream.
pub open spec fn body(stream: Seq<u8>) -> Seq<u8> {
    stream.skip(body_start(stream))
}

/// The content that a decompressed stream yields for a declared size: what
/// follows the header, bounded to that size.
pub open spec fn bounded_content(stream: Seq<u8>, size: u64) -> Seq<u8> {
    if size <= body(stream).len() {
        body(stream).take(size as int)
    } else {
        body(stream)
    }
}

/// The object that a compressed stream decodes to. Its content is bounded to
/// the declared size, however many bytes follow in the stream.
pub open spec fn decoded(compressed: Seq<u8>) -> Result<ObjectView, Error> {
    match inflated(compressed) {
        None => Err(Error::CorruptStream),
        Some(stream) => match parse_envelope(stream) {
            Err(e) => Err(e),
            Ok((kind, size)) => Ok(
                ObjectView { kind, expected_size: size, content: bounded_content(stream, size) },
            ),
        },
    }
}

/// The object that a compressed stream decodes to when bytes that are
/// missing or left over count as corruption.
pub open spec fn decoded_exact(compressed: Seq<u8>) -> Result<ObjectView, Error> {
    match inflated(compressed) {
        None => Err(Error::CorruptStream),
        Some(stream) => match parse_envelope(stream) {
            Err(e) => Err(e),
            Ok((kind, size)) => if body(stream).len() < size {
                Err(Error::IncompleteContent)
            } else if body(stream).len() > size {
                Err(Error::TrailingContent)
            } else {
                Ok(ObjectView { kind, expected_size: size, content: body(stream) })
            },
        },
    }
}

/// Calls `core::str::from_utf8` and tells whether it accepted the bytes,
/// which it does exactly when they are valid UTF-8.
#[verifier::external_body]
fn is_utf8(bytes: &[u8]) -> (r: bool)
    ensures
        r == valid_utf8(bytes@),
{
    core::str::from_utf8(bytes).is_ok()
}

/// Appends the header of an object of the given kind and size to `out`.
pub fn write_header(kind: ObjectKind, size: u64, out: &mut Vec<u8>)
    ensures
        final(out)@ == old(out)@ + header(kind, size as nat),
{
    kind.write_name(out);
    out.push(SPACE);
    write_decimal(size, out);
    out.push(NUL);
    assert(final(out)@ =~= old(out)@ + header(kind, size as nat));
}

/// Reads the header at the start of a decompressed stream.
pub fn parse_header(stream: &[u8]) -> (r: Result<Header, Error>)
    ensures
        match r {
            Ok(h) => parse_envelope(stream@) == Ok::<(ObjectKind, u64), Error>((h.kind, h.size))
                && h.body == body_start(stream@) && h.body <= stream@.len(),
            Err(e) => parse_envelope(stream@) == Err::<(ObjectKind, u64), Error>(e),
        },
{
    let end = find_from(stream, NUL, 0);
    if end >= stream.len() {
        return Err(Error::HeaderUnterminated);
    }
    let text = slice_subrange(stream, 0, end);
    assert(text@ =~= stream@.take(end as int));
    if !is_utf8(text) {
        return Err(Error::HeaderNotText);
    }
    let gap = find_from(text, SPACE, 0);
    if gap >= text.len() {
        return Err(Error::HeaderNoSeparator);
    }
    let kind_token = slice_subrange(text, 0, gap);
    let size_token = slice_subrange(text, gap + 1, text.len());
    assert(kind_token@ =~= text@.take(gap as int));
    assert(size_token@ =~= text@.skip(gap + 1));
    match ObjectKind::from_name(kind_token) {
        None => Err(Error::UnsupportedKind),
        Some(kind) => match parse_u64(size_token) {
            None => Err(Error::MalformedSize),
            Some(size) => Ok(Header { kind, size, body: end + 1 }),
        },
    }
}

impl Object {
    /// An object of the given kind whose content stream declares
    /// `expected_size` bytes and yields `content`.
    pub fn new(kind: ObjectKind, expected_size: u64, content: Vec<u8>) -> (r: Object)
        ensures
            r@ == (ObjectView { kind, expected_size, content: content@ }),
    {
        Object { kind, expected_size, content }
    }

    /// An object of the given kind that holds exactly `content`.
    pub fn with_content(kind: ObjectKind, content: Vec<u8>) -> (r: Object)
        ensures
            r@ == (ObjectView { kind, expected_size: content@.len() as u64, content: content@ }),
            r@.complete(),
            r@.payload() == content@,
            r@.envelope() == envelope(kind, content@),
    {
        let expected_size = content.len() as u64;
        assert(content@.take(content@.len() as int) =~= content@);
        Object { kind, expected_size, content }
    }

    /// A blob that holds exactly `content`.
    pub fn blob(content: Vec<u8>) -> (r: Object)
        ensures
            r@ == (ObjectView {
                kind: ObjectKind::Blob,
                expected_size: content@.len() as u64,
                content: content@,
            }),
            r@.complete(),
            r@.payload() == content@,
            r@.envelope() == envelope(ObjectKind::Blob, content@),
    {
        Object::with_content(ObjectKind::Blob, content)
    }

    /// The bytes that belong to the object: the declared prefix of its
    /// content. Fails where the content holds fewer bytes than declared.
    pub fn payload(&self) -> (r: Result<&[u8], Error>)
        ensures
            match r {
                Ok(bytes) => self@.complete() && bytes@ == self@.payload(),
                Err(e) => !self@.complete() && e == Error::IncompleteContent,
            },
    {
        if (self.content.len() as u64) < self.expected_size {
            return Err(Error::IncompleteContent);
        }
        let bytes = slice_subrange(self.content.as_slice(), 0, self.expected_size as usize);
        assert(bytes@ =~= self@.payload());
        Ok(bytes)
    }

    /// The bytes that belong to the object, read as an object of the given
    /// kind. An object of another kind is refused as unsupported, whatever
    /// its content; an object of that kind with fewer bytes than declared
    /// is incomplete.
    pub fn payload_as(&self, kind: ObjectKind) -> (r: Result<&[u8], Error>)
        ensures
            match r {
                Ok(bytes) => self@.kind == kind && self@.complete() && bytes@ == self@.payload(),
                Err(e) => if self@.kind != kind {
                    e == Error::UnsupportedKind
                } else {
                    !self@.complete() && e == Error::IncompleteContent
                },
            },
    {
        if self.kind != kind {
            Err(Error::UnsupportedKind)
        } else {
            self.payload()
        }
    }

    /// The bytes that belong to the object, where the content holds exactly
    /// as many as declared. Missing bytes and bytes left over are both
    /// failures.
    pub fn exact_payload(&self) -> (r: Result<&[u8], Error>)
        ensures
            match r {
                Ok(bytes) => self@.content.len() == self@.expected_size && bytes@
                    == self@.content,
                Err(e) => if self@.content.len() < self@.expected_size {
                    e == Error::IncompleteContent
                } else {
                    self@.content.len() > self@.expected_size && e == Error::TrailingContent
                },
            },
    {
        if (self.content.len() as u64) < self.expected_size {
            Err(Error::IncompleteContent)
        } else if (self.content.len() as u64) > self.expected_size {
            Err(Error::TrailingContent)
        } else {
            Ok(self.content.as_slice())
        }
    }

    /// The envelope of the object: its header, then its payload. Fails where
    /// the content holds fewer bytes than declared.
    pub fn to_envelope(&self) -> (r: Result<Vec<u8>, Error>)
        ensures
            match r {
                Ok(bytes) => self@.complete() && bytes@ == self@.envelope(),
                Err(e) => !self@.complete() && e == Error::IncompleteContent,
            },
    {
        if (self.content.len() as u64) < self.expected_size {
            return Err(Error::IncompleteContent);
        }
        let mut bytes: Vec<u8> = Vec::new();
        write_header(self.kind, self.expected_size, &mut bytes);
        append_range(&mut bytes, self.content.as_slice(), 0, self.expected_size as usize);
        assert(bytes@ =~= self@.envelope());
        Ok(bytes)
    }

    /// The digest of the object, computed without compressing or storing
    /// anything. It depends on the kind, the declared size and the payload
    /// alone.
    pub fn digest(&self) -> (r: Result<ObjectDigest, Error>)
        ensures
            match r {
                Ok(digest) => self@.complete() && digest@ == sha1_digest(self@.envelope()),
                Err(e) => !self@.complete() && e == Error::IncompleteContent,
            },
    {
        match self.to_envelope() {
            Ok(bytes) => Ok(ObjectDigest::of(bytes.as_slice())),
            Err(e) => Err(e),
        }
    }

    /// Writes the object at the default compression level: see
    /// `encode_with_level`.
    pub fn encode(&self) -> (r: Result<StoredObject, Error>)
        ensures
            match r {
                Ok(stored) => self@.complete() && stored.holds(self@.envelope()) && deflated(
                    self@.envelope(),
                    DEFAULT_LEVEL,
                ) == Some(stored.compressed@),
                Err(e) => if self@.complete() {
                    e == Error::Compression && deflated(self@.envelope(), DEFAULT_LEVEL) is None
                } else {
                    e == Error::IncompleteContent
                },
            },
    {
        self.encode_with_level(DEFAULT_LEVEL)
    }

    /// Writes the object: hashes its envelope and compresses it at the given
    /// level.
    ///
    /// Where the content holds fewer bytes than declared, the object is
    /// refused as incomplete. Where it holds more, only the declared prefix
    /// is hashed and stored. The digest is that of the uncompressed
    /// envelope, whatever the level. A complete object is stored exactly
    /// where the compressor writes a stream for its envelope, and that
    /// stream is what is stored; levels above the highest count as the
    /// highest.
    pub fn encode_with_level(&self, level: u32) -> (r: Result<StoredObject, Error>)
        ensures
            match r {
                Ok(stored) => self@.complete() && stored.holds(self@.envelope()) && deflated(
                    self@.envelope(),
                    effective_level(level),
                ) == Some(stored.compressed@),
                Err(e) => if self@.complete() {
                    e == Error::Compression && deflated(
                        self@.envelope(),
                        effective_level(level),
                    ) is None
                } else {
                    e == Error::IncompleteContent
                },
            },
    {
        match self.to_envelope() {
            Err(e) => Err(e),
            Ok(bytes) => {
                let digest = ObjectDigest::of(bytes.as_slice());
                StoredObject::seal(digest, compress(bytes.as_slice(), level))
            },
        }
    }
}

/// Writes `content` as an object of the given kind, at the default
/// compression level: hashes its envelope and compresses it. The object is
/// stored exactly where the compressor writes a stream for the envelope,
/// and that stream is what is stored.
pub fn store_content(kind: ObjectKind, content: &[u8]) -> (r: Result<StoredObject, Error>)
    ensures
        match r {
            Ok(stored) => stored.holds(envelope(kind, content@)) && deflated(
                envelope(kind, content@),
                DEFAULT_LEVEL,
            ) == Some(stored.compressed@),
            Err(e) => e == Error::Compression && deflated(envelope(kind, content@), DEFAULT_LEVEL)
                is None,
        },
{
    let mut bytes: Vec<u8> = Vec::new();
    write_header(kind, content.len() as u64, &mut bytes);
    append_range(&mut bytes, content, 0, content.len());
    assert(bytes@ =~= envelope(kind, content@)) by {
        assert(content@.subrange(0, content@.len() as int) =~= content@);
    }
    let digest = ObjectDigest::of(bytes.as_slice());
    StoredObject::seal(digest, compress(bytes.as_slice(), DEFAULT_LEVEL))
}

impl StoredObject {
    /// Joins a digest with what the compressor returned: a stored object
    /// where it returned a stream, a failure where it returned none.
    pub fn seal(digest: ObjectDigest, compressed: Option<Vec<u8>>) -> (r: Result<
        StoredObject,
        Error,
    >)
        ensures
            match r {
                Ok(stored) => compressed == Some(stored.compressed) && stored.digest == digest,
                Err(e) => compressed is None && e == Error::Compression,
            },
    {
        match compressed {
            Some(stream) => Ok(StoredObject { digest, compressed: stream }),
            None => Err(Error::Compression),
        }
    }
}

/// Reads a stored object: decompresses the whole stream and parses the
/// header. The content of the object is what follows the header, bounded to
/// the declared size.
pub fn decode(compressed: &[u8]) -> (r: Result<Object, Error>)
    ensures
        match r {
            Ok(object) => decoded(compressed@) == Ok::<ObjectView, Error>(object@),
            Err(e) => decoded(compressed@) == Err::<ObjectView, Error>(e),
        },
{
    match zlib_inflate(compressed) {
        None => Err(Error::CorruptStream),
        Some(stream) => match parse_header(stream.as_slice()) {
            Err(e) => Err(e),
            Ok(h) => {
                let available: usize = stream.len() - h.body;
                let end: usize = if h.size <= available as u64 {
                    h.body + h.size as usize
                } else {
                    stream.len()
                };
                let content = copy_range(stream.as_slice(), h.body, end);
                assert(content@ =~= bounded_content(stream@, h.size));
                Ok(Object { kind: h.kind, expected_size: h.size, content })
            },
        },
    }
}

/// Reads a stored object and holds it to its declared size: fewer bytes
/// after the header are a failure, and so are more.
pub fn decode_exact(compressed: &[u8]) -> (r: Result<Object, Error>)
    ensures
        match r {
            Ok(object) => decoded_exact(compressed@) == Ok::<ObjectView, Error>(object@),
            Err(e) => decoded_exact(compressed@) == Err::<ObjectView, Error>(e),
        },
{
    match zlib_inflate(compressed) {
        None => Err(Error::CorruptStream),
        Some(stream) => match parse_header(stream.as_slice()) {
            Err(e) => Err(e),
            Ok(h) => {
                let available: usize = stream.len() - h.body;
                if (available as u64) < h.size {
                    Err(Error::IncompleteContent)
                } else if available as u64 > h.size {
                    Err(Error::TrailingContent)
                } else {
                    let content = copy_range(stream.as_slice(), h.body, stream.len());
                    assert(content@ =~= body(stream@));
                    Ok(Object { kind: h.kind, expected_size: h.size, content })
                }
            },
        },
    }
}

/// A header holds no NUL before its last byte and no space before the one
/// that follows the kind, and it is plain ASCII.
pub proof fn lemma_header_shape(kind: ObjectKind, size: nat)
    ensures
        header(kind, size).len() == kind.name().len() + decimal(size).len() + 2,
        first_index(header(kind, size), NUL) == header(kind, size).len() - 1,
        first_index(header(kind, size).drop_last(), SPACE) == kind.name().len(),
        forall|i: int| 0 <= i < header(kind, size).len() ==> #[trigger] header(kind, size)[i] < 128,
{
    let h = header(kind, size);
    let name = kind.name();
    let digits = decimal(size);
    kind.lemma_named_name();
    lemma_decimal_digits(size);
    assert forall|i: int| 0 <= i < h.len() implies #[trigger] h[i] < 128 && (i < h.len() - 1
        ==> h[i] != NUL) && (i < name.len() ==> h[i] != SPACE) by {
        if i < name.len() {
            assert(h[i] == name[i]);
        } else if i == name.len() {
            assert(h[i] == SPACE);
        } else if i < h.len() - 1 {
            assert(h[i] == digits[i - name.len() - 1]);
            assert(is_digit(digits[i - name.len() - 1]));
        } else {
            assert(h[i] == NUL);
        }
    }
    lemma_first_from_is(h, NUL, 0, h.len() - 1);
    let text = h.drop_last();
    assert forall|i: int| 0 <= i < name.len() implies text[i] != SPACE by {
        assert(text[i] == h[i]);
    }
    assert(text[name.len() as int] == h[name.len() as int]);
    lemma_first_from_is(text, SPACE, 0, name.len() as int);
}

/// Bytes below 128 are valid UTF-8.
pub proof fn lemma_ascii_is_text(bytes: Seq<u8>)
    requires
        forall|i: int| 0 <= i < bytes.len() ==> #[trigger] bytes[i] < 128,
    ensures
        valid_utf8(bytes),
{
    let chars = Seq::new(bytes.len(), |i: int| bytes[i] as char);
    assert(is_ascii_chars(chars));
    is_ascii_chars_encode_utf8(chars);
    assert(encode_utf8(chars) =~= bytes);
    encode_utf8_valid_utf8(chars);
}

/// The header that was written is the header that is read: a stream that
/// starts with the header of a kind and a size parses to that kind and that
/// size, and its content starts right after the header.
pub proof fn lemma_parse_written_header(kind: ObjectKind, size: u64, rest: Seq<u8>)
    ensures
        parse_envelope(header(kind, size as nat) + rest) == Ok::<(ObjectKind, u64), Error>(
            (kind, size),
        ),
        body_start(header(kind, size as nat) + rest) == header(kind, size as nat).len(),
        body(header(kind, size as nat) + rest) == rest,
{
    let h = header(kind, size as nat);
    let stream = h + rest;
    let name = kind.name();
    lemma_header_shape(kind, size as nat);
    kind.lemma_named_name();
    lemma_decimal_round_trip(size as nat);
    let end = h.len() - 1;
    assert forall|j: int| 0 <= j < end implies stream[j] != NUL by {
        assert(stream[j] == h[j]);
        lemma_first_from(h, NUL, 0);
    }
    assert(stream[end] == h[end]);
    lemma_first_from_is(stream, NUL, 0, end);
    let text = stream.take(end);
    assert(text =~= h.drop_last());
    assert forall|i: int| 0 <= i < text.len() implies #[trigger] text[i] < 128 by {
        assert(text[i] == h[i]);
    }
    lemma_ascii_is_text(text);
    let gap = name.len() as int;
    assert(text.take(gap) =~= name);
    assert(text.skip(gap + 1) =~= decimal(size as nat));
    assert(stream.skip(end + 1) =~= rest);
}

/// Decoding inverts encoding: a stream that decompresses to the envelope of
/// `content` under `kind` decodes to an object of that kind with exactly
/// that content.
pub proof fn lemma_round_trip(kind: ObjectKind, content: Seq<u8>, compressed: Seq<u8>)
    requires
        content.len() <= u64::MAX,
        inflated(compressed) == Some(envelope(kind, content)),
    ensures
        decoded(compressed) == Ok::<ObjectView, Error>(
            ObjectView { kind, expected_size: content.len() as u64, content },
        ),
        decoded_exact(compressed) == decoded(compressed),
{
    lemma_parse_written_header(kind, content.len() as u64, content);
    assert(content.take(content.len() as int) =~= content);
}

/// What was stored for an object decodes to its kind, its declared size and
/// its payload.
pub proof fn lemma_decode_stored(object: ObjectView, stored: StoredObject)
    requires
        object.complete(),
        stored.holds(object.envelope()),
    ensures
        decoded(stored.compressed@) == Ok::<ObjectView, Error>(
            ObjectView {
                kind: object.kind,
                expected_size: object.expected_size,
                content: object.payload(),
            },
        ),
        decoded_exact(stored.compressed@) == decoded(stored.compressed@),
{
    lemma_parse_written_header(object.kind, object.expected_size, object.payload());
    assert(object.payload().take(object.expected_size as int) =~= object.payload());
}

} // verus!
