//! The payload of a record: a log's text in bincode's standard configuration.
//!
//! The text is encoded and decoded by the `bincode` crate; this module states what
//! those calls return and checks, before decoding, that the length that the payload
//! announces fits inside it.
use vstd::prelude::*;
use vstd::bytes::{spec_u64_from_le_bytes, spec_u64_to_le_bytes, u64_from_le_bytes};
use vstd::utf8::{decode_utf8, encode_utf8, valid_utf8};
use vstd::slice::slice_subrange;

verus! {

#[verifier::external_type_specification]
#[verifier::external_body]
pub struct ExEncodeError(bincode::error::EncodeError);

#[verifier::external_type_specification]
#[verifier::external_body]
pub struct ExDecodeError(bincode::error::DecodeError);

/// A length as a variable-length integer under bincode's standard configuration: a
/// value up to 250 is one byte; larger values are 251, 252 or 253 followed by the value
/// as a little-endian `u16`, `u32` or `u64`.
pub open spec fn varint_bytes(n: u64) -> Seq<u8> {
    if n <= 250 {
        seq![n as u8]
    } else if n <= 0xffff {
        seq![251u8, (n % 256) as u8, (n / 256) as u8]
    } else if n <= 0xffff_ffff {
        seq![
            252u8,
            (n % 256) as u8,
            (n / 256 % 256) as u8,
            (n / 65536 % 256) as u8,
            (n / 16777216) as u8,
        ]
    } else {
        seq![253u8] + spec_u64_to_le_bytes(n)
    }
}

/// A string under bincode's standard configuration: the length of its UTF-8 bytes as a
/// variable-length integer, then those bytes.
pub open spec fn bincode_string_encoding(text: Seq<char>) -> Seq<u8> {
    varint_bytes(encode_utf8(text).len() as u64) + encode_utf8(text)
}

/// Decoding a string under bincode's standard configuration: read the length prefix,
/// then that many bytes, which must be valid UTF-8. Gives the text and the number of
/// bytes read; `None` where the prefix is missing or invalid, the bytes run out, or they
/// are not UTF-8.
pub open spec fn bincode_string_decoding(bytes: Seq<u8>) -> Option<(Seq<char>, usize)> {
    match bincode_length_prefix(bytes) {
        Some((n, h)) => if h + n <= bytes.len() && valid_utf8(bytes.subrange(h as int, (h + n) as int)) {
            Some((decode_utf8(bytes.subrange(h as int, (h + n) as int)), (h + n) as usize))
        } else {
            None
        },
        None => None,
    }
}

/// The length prefix of an encoded string under the standard configuration: a
/// variable-length integer. A first byte up to 250 is the length itself; 251, 252 and
/// 253 announce a little-endian `u16`, `u32` and `u64` after it. Gives the length and
/// the size of the prefix, or `None` where the prefix is not there or not valid.
pub open spec fn bincode_length_prefix(bytes: Seq<u8>) -> Option<(nat, nat)> {
    if bytes.len() == 0 {
        None
    } else if bytes[0] <= 250 {
        Some((bytes[0] as nat, 1))
    } else if bytes[0] == 251 {
        if bytes.len() >= 3 {
            Some((bytes[1] as nat + 256 * (bytes[2] as nat), 3))
        } else {
            None
        }
    } else if bytes[0] == 252 {
        if bytes.len() >= 5 {
            Some((bytes[1] as nat + 256 * (bytes[2] as nat) + 65536 * (bytes[3] as nat)
                + 16777216 * (bytes[4] as nat), 5))
        } else {
            None
        }
    } else if bytes[0] == 253 {
        if bytes.len() >= 9 {
            Some((spec_u64_from_le_bytes(bytes.subrange(1, 9)) as nat, 9))
        } else {
            None
        }
    } else {
        None
    }
}

/// Whether the string that `bytes` announces, if it announces one, lies inside `bytes`.
/// Decoding allocates the announced length before it reads, so only such payloads are
/// handed to the decoder.
pub open spec fn announced_length_fits(bytes: Seq<u8>) -> bool {
    match bincode_length_prefix(bytes) {
        Some((n, h)) => h + n <= bytes.len(),
        None => true,
    }
}

/// Calls `bincode::serde::encode_to_vec` on a string with `bincode::config::standard()`.
/// Claims that it succeeds (its writer into a `Vec` never fails and the standard
/// configuration has no limit) and that the bytes are the length of the text's UTF-8
/// bytes as a variable-length integer followed by those bytes.
#[verifier::external_body]
fn bincode_encode_string(text: &String) -> (r: Result<Vec<u8>, bincode::error::EncodeError>)
    ensures
        match r {
            Ok(bytes) => bytes@ == bincode_string_encoding(text@),
            Err(_) => false,
        },
{
    bincode::serde::encode_to_vec(text, bincode::config::standard())
}

/// Calls `bincode::serde::decode_from_slice::<String, _>` with `bincode::config::standard()`.
/// Claims that it reads the length prefix, then that many bytes, and succeeds exactly
/// when they are valid UTF-8, giving their text and the number of bytes read. The
/// announced length must lie inside `bytes`: the decoder allocates it before reading.
#[verifier::external_body]
fn bincode_decode_string(bytes: &[u8]) -> (r: Result<(String, usize), bincode::error::DecodeError>)
    requires
        announced_length_fits(bytes@),
    ensures
        match r {
            Ok((text, read)) => bincode_string_decoding(bytes@) == Some((text@, read)),
            Err(_) => bincode_string_decoding(bytes@) is None,
        },
{
    bincode::serde::decode_from_slice::<String, _>(bytes, bincode::config::standard())
}

/// The payload that a record holds for a log's text.
pub fn encode_text(text: &String) -> (payload: Vec<u8>)
    ensures
        payload@ == bincode_string_encoding(text@),
{
    match bincode_encode_string(text) {
        Ok(bytes) => bytes,
        Err(_) => {
            assert(false);
            Vec::new()
        },
    }
}

/// The text that decoding a string from `payload` gives.
pub open spec fn decoded_text(payload: Seq<u8>) -> Option<Seq<char>> {
    match bincode_string_decoding(payload) {
        Some((text, _)) => Some(text),
        None => None,
    }
}

/// Checks that the string that `bytes` announces lies inside `bytes`.
pub fn check_announced_length(bytes: &[u8]) -> (ok: bool)
    ensures
        ok == announced_length_fits(bytes@),
{
    let n = bytes.len();
    if n == 0 {
        return true;
    }
    let b0 = bytes[0];
    if b0 <= 250 {
        (b0 as usize) < n
    } else if b0 == 251 {
        if n < 3 {
            return true;
        }
        let len: u64 = bytes[1] as u64 + 256 * (bytes[2] as u64);
        len <= (n - 3) as u64
    } else if b0 == 252 {
        if n < 5 {
            return true;
        }
        let len: u64 = bytes[1] as u64 + 256 * (bytes[2] as u64) + 65536 * (bytes[3] as u64)
            + 16777216 * (bytes[4] as u64);
        len <= (n - 5) as u64
    } else if b0 == 253 {
        if n < 9 {
            return true;
        }
        let len = u64_from_le_bytes(slice_subrange(bytes, 1, 9));
        len <= (n - 9) as u64
    } else {
        true
    }
}

/// Decodes a log's text from a record's payload; `None` where it does not decode. A
/// payload that announces more bytes than it holds is refused before bincode sees it.
pub fn decode_text(payload: &[u8]) -> (text: Option<String>)
    ensures
        match text {
            Some(t) => decoded_text(payload@) == Some(t@),
            None => decoded_text(payload@) is None,
        },
{
    if !check_announced_length(payload) {
        return None;
    }
    match bincode_decode_string(payload) {
        Ok((text, _)) => Some(text),
        Err(_) => None,
    }
}

proof fn lemma_varint_prefix(n: u64, rest: Seq<u8>)
    ensures
        bincode_length_prefix(varint_bytes(n) + rest) == Some((n as nat, varint_bytes(n).len())),
{
    let b = varint_bytes(n) + rest;
    if n <= 250 {
    } else if n <= 0xffff {
        assert(b[1] == (n % 256) as u8 && b[2] == (n / 256) as u8);
        assert(b[1] as nat + 256 * (b[2] as nat) == n);
    } else if n <= 0xffff_ffff {
        assert(b[1] == (n % 256) as u8 && b[2] == (n / 256 % 256) as u8 && b[3] == (n / 65536
            % 256) as u8 && b[4] == (n / 16777216) as u8);
        assert(b[1] as nat + 256 * (b[2] as nat) + 65536 * (b[3] as nat) + 16777216 * (
        b[4] as nat) == n);
    } else {
        vstd::bytes::lemma_auto_spec_u64_to_from_le_bytes();
        assert(b.subrange(1, 9) =~= spec_u64_to_le_bytes(n));
    }
}

/// Law of the payload codec: decoding a text's encoding gives the text back, having read
/// all of the encoding.
pub proof fn law_text_round_trip(text: Seq<char>)
    requires
        encode_utf8(text).len() <= u64::MAX,
    ensures
        bincode_string_decoding(bincode_string_encoding(text)) == Some(
            (text, bincode_string_encoding(text).len() as usize),
        ),
        decoded_text(bincode_string_encoding(text)) == Some(text),
        announced_length_fits(bincode_string_encoding(text)),
{
    let body = encode_utf8(text);
    let n = body.len() as u64;
    let bytes = bincode_string_encoding(text);
    lemma_varint_prefix(n, body);
    let h = varint_bytes(n).len();
    assert(bytes.subrange(h as int, (h + n) as int) =~= body);
    vstd::utf8::encode_utf8_valid_utf8(text);
    vstd::utf8::encode_utf8_decode_utf8(text);
}

} // verus!
