//! Gzip, by the flate2 crate.
use std::io::{Cursor, Read, Write};

use vstd::prelude::*;

verus! {

/// What the gzip decoder makes of some bytes: the data, or the message of its error.
pub uninterp spec fn gunzipped(data: Seq<u8>) -> Result<Seq<u8>, Seq<char>>;

/// What the gzip encoder makes of some data: the message of an error while the data was taken
/// in, or else the bytes, or the message of an error while the stream was ended.
pub uninterp spec fn gzipped(raw: Seq<u8>) -> Result<Result<Seq<u8>, Seq<char>>, Seq<char>>;

/// Calls `flate2::read::GzDecoder` on bytes in memory, reading to its end. Claimed: the outcome
/// depends on nothing but the bytes. Which bytes are a gzip stream, and of what, is named, not
/// described.
#[verifier::external_body]
pub(crate) fn gunzip(data: &[u8]) -> (r: Result<Vec<u8>, String>)
    ensures
        match (r, gunzipped(data@)) {
            (Ok(v), Ok(s)) => v@ == s,
            (Err(e), Err(m)) => e@ == m,
            _ => false,
        },
{
    let mut out = Vec::new();
    match flate2::read::GzDecoder::new(Cursor::new(data)).read_to_end(&mut out) {
        Ok(_) => Ok(out),
        Err(e) => Err(e.to_string()),
    }
}

/// Calls `flate2::write::GzEncoder` at the default level, into memory: `write_all`, whose error is
/// the outer one, then `finish`, whose error is the inner one. Claimed: the outcome depends on
/// nothing but the data, and the decoder gives the data back from the bytes.
#[verifier::external_body]
pub(crate) fn gzip(raw: &[u8]) -> (r: Result<Result<Vec<u8>, String>, String>)
    ensures
        match (r, gzipped(raw@)) {
            (Ok(Ok(v)), Ok(Ok(s))) => v@ == s && gunzipped(v@) == Ok::<Seq<u8>, Seq<char>>(raw@),
            (Ok(Err(e)), Ok(Err(m))) => e@ == m,
            (Err(e), Err(m)) => e@ == m,
            _ => false,
        },
{
    let mut encoder = flate2::write::GzEncoder::new(Vec::new(), flate2::Compression::default());
    match encoder.write_all(raw) {
        Ok(()) => Ok(encoder.finish().map_err(|e| e.to_string())),
        Err(e) => Err(e.to_string()),
    }
}

} // verus!
