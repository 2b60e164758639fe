//! The layout of the object store: where the object of a digest lies, under
//! which name it is written before it is moved there, and what a lookup
//! returns.

use crate::codec::{decode, decode_exact, decoded, decoded_exact, Object, ObjectView};
use crate::decimal::{decimal, digit, is_digit, lemma_decimal_digits};
use crate::digest::{hex_text, is_hex_char, ObjectDigest, HEX_LEN};
use crate::error::Error;
use vstd::prelude::*;
use vstd::string::*;

verus! {

/// The number of characters of a digest's text that name the directory.
pub const FAN_OUT_LEN: usize = 2;

/// The two parts of the path under which an object is stored: a directory
/// named by the first two characters of the digest's text, and in it a file
/// named by the other 38.
#[derive(Clone, Debug, PartialEq, Eq)]
pub struct FanOut {
    pub directory: String,
    pub file: String,
}

/// The path of an object below the root of the store: the directory, a
/// slash, the file.
pub open spec fn relative_path_text(digest: Seq<u8>) -> Seq<char> {
    hex_text(digest).subrange(0, FAN_OUT_LEN as int).push('/') + hex_text(digest).subrange(
        FAN_OUT_LEN as int,
        HEX_LEN as int,
    )
}

/// Where the object of `digest` lies in the store.
pub fn fan_out(digest: &ObjectDigest) -> (r: FanOut)
    ensures
        r.directory@ == hex_text(digest@).subrange(0, FAN_OUT_LEN as int),
        r.file@ == hex_text(digest@).subrange(FAN_OUT_LEN as int, HEX_LEN as int),
{
    let hex = digest.to_hex();
    let text = hex.as_str();
    assert(is_ascii(text)) by {
        assert forall|i: int| 0 <= i < text@.len() implies '\0' <= #[trigger] text@[i]
            <= '\u{7f}' by {
            assert(is_hex_char(text@[i]));
        }
    }
    let directory = String::from_str(text.substring_ascii(0, FAN_OUT_LEN));
    let file = String::from_str(text.substring_ascii(FAN_OUT_LEN, HEX_LEN));
    FanOut { directory, file }
}

/// The path of the object of `digest` below the root of the store.
pub fn relative_path(digest: &ObjectDigest) -> (r: String)
    ensures
        r@ == relative_path_text(digest@),
{
    let place = fan_out(digest);
    let mut path = place.directory;
    proof {
        reveal_strlit("/");
    }
    path.append("/");
    path.append(place.file.as_str());
    assert(path@ =~= relative_path_text(digest@));
    path
}

/// What a lookup returns, given what was found at the path of the digest:
/// `NotFound` where nothing lies there, else what the bytes decode to.
pub fn get(found: Option<&[u8]>) -> (r: Result<Object, Error>)
    ensures
        match (found, r) {
            (None, Err(e)) => e == Error::NotFound,
            (Some(bytes), Ok(object)) => decoded(bytes@) == Ok::<ObjectView, Error>(object@),
            (Some(bytes), Err(e)) => decoded(bytes@) == Err::<ObjectView, Error>(e),
            (None, Ok(_)) => false,
        },
{
    match found {
        None => Err(Error::NotFound),
        Some(bytes) => decode(bytes),
    }
}

/// What a strict lookup returns, given what was found at the path of the
/// digest: `NotFound` where nothing lies there, else what the bytes decode
/// to when bytes that are missing or left over count as corruption.
pub fn get_exact(found: Option<&[u8]>) -> (r: Result<Object, Error>)
    ensures
        match (found, r) {
            (None, Err(e)) => e == Error::NotFound,
            (Some(bytes), Ok(object)) => decoded_exact(bytes@) == Ok::<ObjectView, Error>(object@),
            (Some(bytes), Err(e)) => decoded_exact(bytes@) == Err::<ObjectView, Error>(e),
            (None, Ok(_)) => false,
        },
{
    match found {
        None => Err(Error::NotFound),
        Some(bytes) => decode_exact(bytes),
    }
}

/// The byte that separates the parts of a temporary name.
pub const DASH: u8 = 0x2d;

/// The bytes of the name under which an object is written before it is
/// moved to its place: `tmp-`, the number of the process, a dash, and the
/// number of the write within that process.
pub open spec fn temp_name_bytes(process: nat, sequence: nat) -> Seq<u8> {
    seq!['t' as u8, 'm' as u8, 'p' as u8, DASH] + decimal(process).push(DASH) + decimal(sequence)
}

/// The characters of a temporary name.
pub open spec fn temp_name_text(process: nat, sequence: nat) -> Seq<char> {
    temp_name_bytes(process, sequence).map_values(|b: u8| b as char)
}

/// Two numbers with one decimal text are equal.
pub proof fn lemma_decimal_injective(a: nat, b: nat)
    requires
        decimal(a) == decimal(b),
    ensures
        a == b,
{
    lemma_decimal_digits(a);
    lemma_decimal_digits(b);
}

/// No two writes share a temporary name: names are equal only where both
/// the process and the sequence number are.
pub proof fn lemma_temp_names_differ(first_process: nat, first_sequence: nat, second_process: nat, second_sequence: nat)
    requires
        temp_name_text(first_process, first_sequence) == temp_name_text(second_process, second_sequence),
    ensures
        first_process == second_process,
        first_sequence == second_sequence,
{
    let first_name = temp_name_bytes(first_process, first_sequence);
    let second_name = temp_name_bytes(second_process, second_sequence);
    let first_text = temp_name_text(first_process, first_sequence);
    let second_text = temp_name_text(second_process, second_sequence);
    assert(first_name.len() == first_text.len() && second_name.len() == second_text.len());
    assert forall|i: int| 0 <= i < first_name.len() implies first_name[i] == second_name[i] by {
        assert(first_text[i] == first_name[i] as char);
        assert(second_text[i] == second_name[i] as char);
    }
    assert(first_name =~= second_name);
    let first_head = decimal(first_process);
    let second_head = decimal(second_process);
    let first_tail = decimal(first_sequence);
    let second_tail = decimal(second_sequence);
    lemma_decimal_digits(first_process);
    lemma_decimal_digits(second_process);
    lemma_decimal_digits(first_sequence);
    lemma_decimal_digits(second_sequence);
    assert(first_name.len() == 4 + first_head.len() + 1 + first_tail.len());
    assert(second_name.len() == 4 + second_head.len() + 1 + second_tail.len());
    if first_head.len() < second_head.len() {
        assert(first_name[4 + first_head.len() as int] == DASH);
        assert(second_name[4 + first_head.len() as int] == second_head[first_head.len() as int]);
        assert(is_digit(second_head[first_head.len() as int]));
    }
    if second_head.len() < first_head.len() {
        assert(second_name[4 + second_head.len() as int] == DASH);
        assert(first_name[4 + second_head.len() as int] == first_head[second_head.len() as int]);
        assert(is_digit(first_head[second_head.len() as int]));
    }
    assert forall|i: int| 0 <= i < first_head.len() implies first_head[i] == second_head[i] by {
        assert(first_name[4 + i] == first_head[i]);
        assert(second_name[4 + i] == second_head[i]);
    }
    assert(first_head =~= second_head);
    assert forall|i: int| 0 <= i < first_tail.len() implies first_tail[i] == second_tail[i] by {
        assert(first_name[4 + first_head.len() + 1 + i] == first_tail[i]);
        assert(second_name[4 + second_head.len() + 1 + i] == second_tail[i]);
    }
    assert(first_tail =~= second_tail);
    lemma_decimal_injective(first_process, second_process);
    lemma_decimal_injective(first_sequence, second_sequence);
}

/// The text of one decimal digit.
fn digit_str(d: u64) -> (r: &'static str)
    requires
        d < 10,
    ensures
        r@ == seq![digit(d as nat) as char],
{
    proof {
        reveal_strlit("0");
        reveal_strlit("1");
        reveal_strlit("2");
        reveal_strlit("3");
        reveal_strlit("4");
        reveal_strlit("5");
        reveal_strlit("6");
        reveal_strlit("7");
        reveal_strlit("8");
        reveal_strlit("9");
    }
    let r = if d == 0 {
        "0"
    } else if d == 1 {
        "1"
    } else if d == 2 {
        "2"
    } else if d == 3 {
        "3"
    } else if d == 4 {
        "4"
    } else if d == 5 {
        "5"
    } else if d == 6 {
        "6"
    } else if d == 7 {
        "7"
    } else if d == 8 {
        "8"
    } else {
        "9"
    };
    assert(r@ =~= seq![digit(d as nat) as char]);
    r
}

/// Appends the decimal text of `n` to `out`.
fn append_decimal(out: &mut String, n: u64)
    ensures
        final(out)@ == old(out)@ + decimal(n as nat).map_values(|b: u8| b as char),
    decreases n,
{
    if n >= 10 {
        append_decimal(out, n / 10);
    }
    out.append(digit_str(n % 10));
    assert(final(out)@ =~= old(out)@ + decimal(n as nat).map_values(|b: u8| b as char));
}

/// The name under which the write numbered `sequence` of the process
/// numbered `process` puts its object before moving it to its place.
pub fn temp_name(process: u32, sequence: u64) -> (r: String)
    ensures
        r@ == temp_name_text(process as nat, sequence as nat),
{
    proof {
        reveal_strlit("tmp-");
        reveal_strlit("-");
    }
    let mut name = String::from_str("tmp-");
    append_decimal(&mut name, process as u64);
    name.append("-");
    append_decimal(&mut name, sequence);
    assert(name@ =~= temp_name_text(process as nat, sequence as nat));
    name
}

} // verus!
