//! Compression of chunk blocks.

use crate::message::Error;
use crate::text;
use crate::text::with_number;
use std::io::{Read, Write};
use vstd::prelude::*;

verus! {

/// The block is stored as it is.
pub const COMPRESS_NONE: u32 = 0;

/// Reserved for zstd, which is not built in.
pub const COMPRESS_ZSTD: u32 = 1;

/// The block is a zlib stream.
pub const COMPRESS_DEFLATE: u32 = 2;

/// What `flate2`'s zlib encoder at level 3 makes of `data`, or the words of its error.
pub uninterp spec fn zlib_packed(data: Seq<u8>) -> Result<Seq<u8>, Seq<char>>;

/// What `flate2`'s zlib decoder makes of `data`, or the words of its error.
pub uninterp spec fn zlib_unpacked(data: Seq<u8>) -> Result<Seq<u8>, Seq<char>>;

/// `r` and `model` are the same bytes, or fail with the same words.
pub open spec fn same_bytes(
    r: Result<Vec<u8>, String>,
    model: Result<Seq<u8>, Seq<char>>,
) -> bool {
    match r {
        Ok(v) => model == Ok::<Seq<u8>, Seq<char>>(v@),
        Err(e) => model == Err::<Seq<u8>, Seq<char>>(e@),
    }
}

/// Runs `flate2::write::ZlibEncoder` at level 3 over `data`. The stream depends on `data`
/// alone, and decoding it gives `data` back.
#[verifier::external_body]
fn zlib_pack(data: &[u8]) -> (r: Result<Vec<u8>, String>)
    ensures
        same_bytes(r, zlib_packed(data@)),
        r matches Ok(v) ==> zlib_unpacked(v@) is Ok && zlib_unpacked(v@)->Ok_0 == data@,
{
    let mut e = flate2::write::ZlibEncoder::new(Vec::new(), flate2::Compression::new(3));
    e.write_all(data).map_err(|e| e.to_string())?;
    e.finish().map_err(|e| e.to_string())
}

/// Runs `flate2::read::ZlibDecoder` over `data` to the end of its stream. What comes out,
/// bytes or error, depends on `data` alone.
#[verifier::external_body]
fn zlib_unpack(data: &[u8]) -> (r: Result<Vec<u8>, String>)
    ensures
        same_bytes(r, zlib_unpacked(data@)),
{
    let mut d = flate2::read::ZlibDecoder::new(data);
    let mut out = Vec::new();
    d.read_to_end(&mut out).map_err(|e| e.to_string())?;
    Ok(out)
}

/// The stored form of `data` under the compressor `code`.
pub open spec fn packed(code: u32, data: Seq<u8>) -> Result<Seq<u8>, Seq<char>> {
    if code == COMPRESS_NONE {
        Ok(data)
    } else if code == COMPRESS_DEFLATE {
        zlib_packed(data)
    } else if code == COMPRESS_ZSTD {
        Err("zstd compression not built in (reserved)"@)
    } else {
        Err("unknown compressor "@ + text::decimal(code as nat))
    }
}

/// What `unpacked` makes of the outcome `inflated` of the zlib decoder: the length must be
/// the announced one.
pub open spec fn sized(inflated: Result<Seq<u8>, Seq<char>>, expected: nat) -> Result<
    Seq<u8>,
    Seq<char>,
> {
    match inflated {
        Ok(out) => if out.len() == expected {
            Ok(out)
        } else {
            Err("decompressed length mismatch"@)
        },
        Err(e) => Err(e),
    }
}

/// The records that the stored block `data` holds under the compressor `code`.
pub open spec fn unpacked(code: u32, data: Seq<u8>, expected: nat) -> Result<Seq<u8>, Seq<char>> {
    if code == COMPRESS_NONE {
        if data.len() == expected {
            Ok(data)
        } else {
            Err("none-compressed length mismatch"@)
        }
    } else if code == COMPRESS_DEFLATE {
        sized(zlib_unpacked(data), expected)
    } else if code == COMPRESS_ZSTD {
        Err("zstd decompression not built in (reserved)"@)
    } else {
        Err("unknown compressor "@ + text::decimal(code as nat))
    }
}

/// Compresses a block of records. What was compressed decompresses to itself.
pub fn compress_block(code: u32, data: &[u8]) -> (r: Result<Vec<u8>, Error>)
    ensures
        match r {
            Ok(v) => packed(code, data@) == Ok::<_, Seq<char>>(v@),
            Err(e) => packed(code, data@) == Err::<Seq<u8>, _>(e@),
        },
        r matches Ok(v) ==> unpacked(code, v@, data@.len()) == Ok::<_, Seq<char>>(data@),
{
    if code == COMPRESS_NONE {
        Ok(vstd::slice::slice_to_vec(data))
    } else if code == COMPRESS_DEFLATE {
        match zlib_pack(data) {
            Ok(v) => Ok(v),
            Err(e) => Err(Error(e)),
        }
    } else if code == COMPRESS_ZSTD {
        Err(Error::msg("zstd compression not built in (reserved)"))
    } else {
        Err(Error(with_number("unknown compressor ", code as u64)))
    }
}

/// Checks the length of what the zlib decoder gave.
pub fn check_size(inflated: Result<Vec<u8>, String>, expected_len: usize) -> (r: Result<
    Vec<u8>,
    Error,
>)
    ensures
        match r {
            Ok(v) => inflated matches Ok(d) && d@ == v@ && v@.len() == expected_len,
            Err(e) => match inflated {
                Ok(d) => d@.len() != expected_len && e@ == "decompressed length mismatch"@,
                Err(w) => e@ == w@,
            },
        },
{
    match inflated {
        Ok(out) => {
            if out.len() != expected_len {
                return Err(Error::msg("decompressed length mismatch"));
            }
            Ok(out)
        },
        Err(e) => Err(Error(e)),
    }
}

/// Decompresses a stored block that should hold `expected_len` bytes.
pub fn decompress_block(code: u32, data: &[u8], expected_len: usize) -> (r: Result<Vec<u8>, Error>)
    ensures
        match r {
            Ok(v) => unpacked(code, data@, expected_len as nat) == Ok::<_, Seq<char>>(v@),
            Err(e) => unpacked(code, data@, expected_len as nat) == Err::<Seq<u8>, _>(e@),
        },
{
    if code == COMPRESS_NONE {
        if data.len() != expected_len {
            return Err(Error::msg("none-compressed length mismatch"));
        }
        Ok(vstd::slice::slice_to_vec(data))
    } else if code == COMPRESS_DEFLATE {
        check_size(zlib_unpack(data), expected_len)
    } else if code == COMPRESS_ZSTD {
        Err(Error::msg("zstd decompression not built in (reserved)"))
    } else {
        Err(Error(with_number("unknown compressor ", code as u64)))
    }
}

/// The code 0 stores bytes as they are, and gives them back where their number is the announced
/// one; the code 2 goes through zlib; every other code is refused, in words that name it, and 1 as
/// reserved.
pub proof fn law_codes_of_compressors(code: u32, data: Seq<u8>, n: nat)
    ensures
        code == 0 ==> packed(code, data) == Ok::<Seq<u8>, Seq<char>>(data),
        code == 0 ==> unpacked(code, data, n) == (if data.len() == n {
            Ok::<Seq<u8>, Seq<char>>(data)
        } else {
            Err("none-compressed length mismatch"@)
        }),
        code == 2 ==> packed(code, data) == zlib_packed(data),
        code == 2 ==> match zlib_unpacked(data) {
            Ok(out) => unpacked(code, data, n) == (if out.len() == n {
                Ok::<Seq<u8>, Seq<char>>(out)
            } else {
                Err("decompressed length mismatch"@)
            }),
            Err(e) => unpacked(code, data, n) == Err::<Seq<u8>, Seq<char>>(e),
        },
        code == 1 ==> packed(code, data) == Err::<Seq<u8>, Seq<char>>(
            "zstd compression not built in (reserved)"@,
        ) && unpacked(code, data, n) == Err::<Seq<u8>, Seq<char>>(
            "zstd decompression not built in (reserved)"@,
        ),
        code > 2 ==> packed(code, data) == Err::<Seq<u8>, Seq<char>>(
            "unknown compressor "@ + text::decimal(code as nat),
        ) && unpacked(code, data, n) == Err::<Seq<u8>, Seq<char>>(
            "unknown compressor "@ + text::decimal(code as nat),
        ),
{
}

/// What is unpacked has the announced length.
pub proof fn law_unpacked_bytes_have_the_announced_length(code: u32, data: Seq<u8>, n: nat)
    ensures
        unpacked(code, data, n) matches Ok(out) ==> out.len() == n,
{
}

} // verus!
