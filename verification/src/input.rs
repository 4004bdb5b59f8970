use std::io::Read;

use flate2::read::GzDecoder;
use vstd::prelude::*;
use xz2::read::XzDecoder;

verus! {

/// The text a gzip payload decompresses to, if it is one.
pub uninterp spec fn gunzip_of(bytes: Seq<u8>) -> Option<Seq<char>>;

/// The text an xz payload decompresses to, if it is one.
pub uninterp spec fn unxz_of(bytes: Seq<u8>) -> Option<Seq<char>>;

/// The text the bytes spell in UTF-8, if they are valid.
pub uninterp spec fn utf8_of(bytes: Seq<u8>) -> Option<Seq<char>>;

/// The text a formula payload decodes to: gzip streams first, then xz streams,
/// anything else must be plain text.
pub open spec fn decoded_text(bytes: Seq<u8>) -> Option<Seq<char>> {
    if gunzip_of(bytes) is Some {
        gunzip_of(bytes)
    } else if unxz_of(bytes) is Some {
        unxz_of(bytes)
    } else {
        utf8_of(bytes)
    }
}

/// Relies on flate2::read::GzDecoder with std::io::Read::read_to_string: whether
/// the bytes form a gzip stream, and the text they decompress to, depend on the
/// bytes alone.
#[verifier::external_body]
fn decode_gzipped_input(bytes: &Vec<u8>) -> (r: Option<String>)
    ensures
        match r {
            Some(text) => gunzip_of(bytes@) == Some(text@),
            None => gunzip_of(bytes@) is None,
        },
{
    let mut decoder = GzDecoder::new(bytes.as_slice());
    let mut string = String::new();

    match decoder.read_to_string(&mut string) {
        Ok(_) => Some(string),
        Err(_) => None,
    }
}

/// Relies on xz2::read::XzDecoder with std::io::Read::read_to_string: whether the
/// bytes form an xz stream, and the text they decompress to, depend on the bytes
/// alone.
#[verifier::external_body]
fn decode_xz_input(bytes: &Vec<u8>) -> (r: Option<String>)
    ensures
        match r {
            Some(text) => unxz_of(bytes@) == Some(text@),
            None => unxz_of(bytes@) is None,
        },
{
    let mut decoder = XzDecoder::new(bytes.as_slice());
    let mut string = String::new();

    match decoder.read_to_string(&mut string) {
        Ok(_) => Some(string),
        Err(_) => None,
    }
}

/// Relies on String::from_utf8: whether the bytes are valid UTF-8, and the text
/// they spell, depend on the bytes alone.
#[verifier::external_body]
fn decode_utf8_input(bytes: &Vec<u8>) -> (r: Option<String>)
    ensures
        match r {
            Some(text) => utf8_of(bytes@) == Some(text@),
            None => utf8_of(bytes@) is None,
        },
{
    match String::from_utf8(bytes.clone()) {
        Ok(string) => Some(string),
        Err(_) => None,
    }
}

/// The pure half of reading a formula payload; the reading itself stays with the
/// caller.
pub struct Input;

impl Input {
    /// Recover the formula text from a possibly compressed payload: try gzip,
    /// then xz, then take the bytes as plain text. `None` means the bytes are
    /// neither a supported compressed stream nor valid text.
    pub fn decode_dimacs(bytes: &Vec<u8>) -> (r: Option<String>)
        ensures
            match r {
                Some(text) => decoded_text(bytes@) == Some(text@),
                None => decoded_text(bytes@) is None,
            },
    {
        if let Some(dimacs) = decode_gzipped_input(bytes) {
            return Some(dimacs);
        }
        if let Some(dimacs) = decode_xz_input(bytes) {
            return Some(dimacs);
        }
        decode_utf8_input(bytes)
    }
}

} // verus!
