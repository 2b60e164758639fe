//! Object digests: 20 bytes computed with SHA-1, written as 40 lowercase
//! hexadecimal characters.

use crate::error::Error;
use sha1::Digest;
use vstd::prelude::*;
use vstd::string::*;

verus! {

/// The SHA-1 digest of `data`, as the `sha1` crate computes it. The function
/// is named, not defined: all that is known of it here is that it depends on
/// `data` alone.
pub uninterp spec fn sha1_digest(data: Seq<u8>) -> Seq<u8>;

/// The number of bytes in a digest.
pub const DIGEST_LEN: usize = 20;

/// The number of characters in the text of a digest.
pub const HEX_LEN: usize = 40;

/// Calls `Sha1::digest` of the `sha1` crate: a fresh hasher is fed `data` and
/// finalized. The contract names the 20 bytes that come out.
#[verifier::external_body]
fn sha1_of(data: &[u8]) -> (r: [u8; 20])
    ensures
        r@ == sha1_digest(data@),
{
    sha1::Sha1::digest(data).into()
}

/// The lowercase hexadecimal character for `v`, for `v` below sixteen.
pub open spec fn hex_digit(v: int) -> char {
    if v < 10 {
        (('0' as u8 + v) as u8) as char
    } else {
        (('a' as u8 + v - 10) as u8) as char
    }
}

/// The lowercase hexadecimal text of `bytes`: two characters for each byte,
/// the high half first.
pub open spec fn hex_text(bytes: Seq<u8>) -> Seq<char> {
    Seq::new(
        2 * bytes.len(),
        |i: int|
            if i % 2 == 0 {
                hex_digit(bytes[i / 2] as int / 16)
            } else {
                hex_digit(bytes[i / 2] as int % 16)
            },
    )
}

/// Whether `c` is one of `0123456789abcdef`.
pub open spec fn is_hex_char(c: char) -> bool {
    ('0' <= c <= '9') || ('a' <= c <= 'f')
}

/// The value of a lowercase hexadecimal character.
pub open spec fn hex_value(c: char) -> int {
    if c <= '9' {
        c as int - '0' as int
    } else {
        c as int - 'a' as int + 10
    }
}

/// Whether `text` is the text of a digest: 40 lowercase hexadecimal
/// characters.
pub open spec fn is_digest_text(text: Seq<char>) -> bool {
    &&& text.len() == HEX_LEN
    &&& forall|i: int| 0 <= i < text.len() ==> is_hex_char(#[trigger] text[i])
}

/// The bytes that a hexadecimal text of even length stands for.
pub open spec fn hex_bytes(text: Seq<char>) -> Seq<u8> {
    Seq::new(
        text.len() / 2,
        |i: int| (hex_value(text[2 * i]) * 16 + hex_value(text[2 * i + 1])) as u8,
    )
}

/// The identity of a stored object: the SHA-1 digest of its envelope.
#[derive(Clone, Copy, Debug, PartialEq, Eq, Hash)]
pub struct ObjectDigest {
    pub bytes: [u8; 20],
}

impl View for ObjectDigest {
    type V = Seq<u8>;

    open spec fn view(&self) -> Seq<u8> {
        self.bytes@
    }
}

/// Hexadecimal text is made of hexadecimal characters, and reading it gives
/// the bytes back; so two byte sequences with one text are equal.
pub proof fn lemma_hex_round_trip(bytes: Seq<u8>)
    ensures
        hex_text(bytes).len() == 2 * bytes.len(),
        forall|i: int| 0 <= i < hex_text(bytes).len() ==> is_hex_char(#[trigger] hex_text(bytes)[i]),
        hex_bytes(hex_text(bytes)) == bytes,
{
    let text = hex_text(bytes);
    assert forall|i: int| 0 <= i < text.len() implies is_hex_char(#[trigger] text[i]) by {
        let b = bytes[i / 2];
        assert(0 <= b as int / 16 < 16);
        assert(0 <= b as int % 16 < 16);
    }
    assert forall|i: int| 0 <= i < bytes.len() implies hex_bytes(text)[i] == bytes[i] by {
        let b = bytes[i];
        assert((2 * i) % 2 == 0);
        assert((2 * i + 1) % 2 == 1);
        assert((2 * i) / 2 == i);
        assert((2 * i + 1) / 2 == i);
        assert(text[2 * i] == hex_digit(b as int / 16));
        assert(text[2 * i + 1] == hex_digit(b as int % 16));
        assert(hex_value(hex_digit(b as int / 16)) == b as int / 16);
        assert(hex_value(hex_digit(b as int % 16)) == b as int % 16);
    }
    assert(hex_bytes(text) =~= bytes);
}

/// The text of a digest is a digest text.
pub proof fn lemma_digest_text(digest: ObjectDigest)
    ensures
        is_digest_text(hex_text(digest@)),
        hex_bytes(hex_text(digest@)) == digest@,
{
    lemma_hex_round_trip(digest@);
}

/// Writing the bytes that a digest text stands for gives the text back.
pub proof fn lemma_hex_text_of_bytes(text: Seq<char>)
    requires
        text.len() % 2 == 0,
        forall|i: int| 0 <= i < text.len() ==> is_hex_char(#[trigger] text[i]),
    ensures
        hex_text(hex_bytes(text)) == text,
{
    let bytes = hex_bytes(text);
    assert forall|i: int| 0 <= i < text.len() implies hex_text(bytes)[i] == text[i] by {
        let k = i / 2;
        let hi = text[2 * k];
        let lo = text[2 * k + 1];
        assert(is_hex_char(hi) && is_hex_char(lo));
        let v = hex_value(hi) * 16 + hex_value(lo);
        assert(0 <= hex_value(hi) < 16 && 0 <= hex_value(lo) < 16);
        assert(bytes[k] == v as u8);
        assert(v / 16 == hex_value(hi));
        assert(v % 16 == hex_value(lo));
        assert(hex_digit(hex_value(hi)) == hi);
        assert(hex_digit(hex_value(lo)) == lo);
    }
    assert(hex_text(bytes) =~= text);
}

/// The value of one character of a digest's text, given as its byte.
fn hex_nibble(b: u8) -> (r: Option<u8>)
    ensures
        match r {
            Some(v) => is_hex_char(b as char) && v == hex_value(b as char),
            None => !is_hex_char(b as char),
        },
{
    if '0' as u8 <= b && b <= '9' as u8 {
        Some(b - '0' as u8)
    } else if 'a' as u8 <= b && b <= 'f' as u8 {
        Some(b - 'a' as u8 + 10)
    } else {
        None
    }
}

/// The text of one hexadecimal digit.
fn hex_str(v: u8) -> (r: &'static str)
    requires
        v < 16,
    ensures
        r@ == seq![hex_digit(v as int)],
{
    proof {
        reveal_strlit("0");
        reveal_strlit("1");
        reveal_strlit("2");
        reveal_strlit("3");
        reveal_strlit("4");
        reveal_strlit("5");
        reveal_strlit("6");
        reveal_strlit("7");
        reveal_strlit("8");
        reveal_strlit("9");
        reveal_strlit("a");
        reveal_strlit("b");
        reveal_strlit("c");
        reveal_strlit("d");
        reveal_strlit("e");
        reveal_strlit("f");
    }
    let r = if v == 0 {
        "0"
    } else if v == 1 {
        "1"
    } else if v == 2 {
        "2"
    } else if v == 3 {
        "3"
    } else if v == 4 {
        "4"
    } else if v == 5 {
        "5"
    } else if v == 6 {
        "6"
    } else if v == 7 {
        "7"
    } else if v == 8 {
        "8"
    } else if v == 9 {
        "9"
    } else if v == 10 {
        "a"
    } else if v == 11 {
        "b"
    } else if v == 12 {
        "c"
    } else if v == 13 {
        "d"
    } else if v == 14 {
        "e"
    } else {
        "f"
    };
    assert(r@ =~= seq![hex_digit(v as int)]);
    r
}

/// The lowercase hexadecimal text of `bytes`.
pub fn hex_encode(bytes: &[u8]) -> (r: String)
    ensures
        r@ == hex_text(bytes@),
{
    let mut out = String::new();
    let mut i: usize = 0;
    assert(out@ =~= hex_text(bytes@.take(0)));
    while i < bytes.len()
        invariant
            i <= bytes@.len(),
            out@ == hex_text(bytes@.take(i as int)),
        decreases bytes@.len() - i,
    {
        let b: u8 = bytes[i];
        let ghost before = out@;
        out.append(hex_str(b / 16));
        out.append(hex_str(b % 16));
        proof {
            let next = hex_text(bytes@.take(i + 1));
            assert(out@.len() == next.len());
            assert forall|k: int| 0 <= k < next.len() implies out@[k] == next[k] by {
                if k < 2 * i {
                    assert(out@[k] == before[k]);
                    assert(bytes@.take(i as int)[k / 2] == bytes@.take(i + 1)[k / 2]);
                } else {
                    assert(k / 2 == i);
                    assert(bytes@.take(i + 1)[i as int] == b);
                }
            }
            assert(out@ =~= next);
        }
        i = i + 1;
    }
    assert(bytes@.take(i as int) =~= bytes@);
    out
}

impl ObjectDigest {
    /// The digest of `data`.
    pub fn of(data: &[u8]) -> (r: ObjectDigest)
        ensures
            r@ == sha1_digest(data@),
    {
        ObjectDigest { bytes: sha1_of(data) }
    }

    /// Reads the text of a digest. Any text but 40 lowercase hexadecimal
    /// characters is refused.
    pub fn from_hex(text: &str) -> (r: Result<ObjectDigest, Error>)
        ensures
            match r {
                Ok(digest) => is_digest_text(text@) && digest@ == hex_bytes(text@) && hex_text(
                    digest@,
                ) == text@,
                Err(e) => e == Error::MalformedDigest && !is_digest_text(text@),
            },
    {
        if !text.is_ascii() {
            return Err(Error::MalformedDigest);
        }
        let raw = text.as_bytes();
        if raw.len() != HEX_LEN {
            return Err(Error::MalformedDigest);
        }
        let mut bytes: [u8; 20] = [0u8; 20];
        let mut i: usize = 0;
        while i < DIGEST_LEN
            invariant
                0 <= i <= DIGEST_LEN,
                is_ascii(text),
                raw@ == text.spec_bytes(),
                raw@.len() == HEX_LEN,
                text@.len() == HEX_LEN,
                forall|j: int| 0 <= j < 2 * i ==> is_hex_char(#[trigger] text@[j]),
                forall|j: int| 0 <= j < i ==> bytes@[j] == hex_bytes(text@)[j],
            decreases DIGEST_LEN - i,
        {
            let hi = hex_nibble(raw[2 * i]);
            let lo = hex_nibble(raw[2 * i + 1]);
            match (hi, lo) {
                (Some(h), Some(l)) => {
                    bytes[i] = h * 16 + l;
                },
                _ => {
                    assert(!is_hex_char(text@[2 * i as int]) || !is_hex_char(
                        text@[2 * i as int + 1],
                    ));
                    return Err(Error::MalformedDigest);
                },
            }
            i = i + 1;
        }
        proof {
            assert(bytes@ =~= hex_bytes(text@));
            lemma_hex_text_of_bytes(text@);
        }
        Ok(ObjectDigest { bytes })
    }

    /// The 40 lowercase hexadecimal characters that render this digest.
    pub fn to_hex(&self) -> (r: String)
        ensures
            r@ == hex_text(self@),
            is_digest_text(r@),
    {
        proof {
            lemma_digest_text(*self);
        }
        hex_encode(self.bytes.as_slice())
    }
}

} // verus!
