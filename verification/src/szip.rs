//! The SZIP filter: what its client data asks of the decoder, and what becomes
//! of the decoder's answer. The decoder itself is not part of the library.

use crate::builders::FormatError;
use crate::text::{push_signed_decimal, signed_decimal};
use vstd::prelude::*;

verus! {

/// The filter's number.
pub const FILTER_SZIP: u16 = 4;

/// Blocks between reference samples.
pub const REFERENCE_INTERVAL: u32 = 128;

/// How the decoder is to be set up.
#[derive(Clone, Copy, PartialEq, Eq, Debug, Structural)]
pub struct SzipParams {
    pub bits_per_sample: u32,
    pub block_size: u32,
    pub rsi: u32,
    /// Undo nearest-neighbour preprocessing.
    pub preprocess: bool,
    /// Samples are stored most significant byte first.
    pub msb: bool,
    pub allow_k13: bool,
    /// Bytes to decode into.
    pub output_size: usize,
}

/// Whether the bit of weight `weight` is set.
pub open spec fn has_weight(v: u32, weight: u32) -> bool {
    (v / weight) % 2 == 1
}

/// What is wrong with a request, `None` if nothing is.
pub open spec fn request_fault(data: Seq<u8>, cd: Seq<u32>, chunk_size: usize) -> Option<
    Seq<char>,
> {
    if cd.len() < 5 {
        Some("szip: missing client data"@)
    } else if cd[4] == 0 || cd[4] > 32 {
        Some("szip: invalid bits per sample"@)
    } else if chunk_size == 0 {
        Some("szip: unknown output size"@)
    } else if data.len() == 0 {
        Some("szip: empty input"@)
    } else {
        None
    }
}

/// What the client data asks for: options, pixels per block, pixels per scan
/// line, and, as the fifth number, bits per sample.
pub open spec fn asked_params(cd: Seq<u32>, chunk_size: usize) -> SzipParams {
    SzipParams {
        bits_per_sample: cd[4],
        block_size: cd[1],
        rsi: REFERENCE_INTERVAL,
        preprocess: has_weight(cd[0], 0x04),
        msb: !has_weight(cd[0], 0x40),
        allow_k13: has_weight(cd[0], 0x100),
        output_size: chunk_size,
    }
}

fn read_error(text: &str) -> (r: Result<SzipParams, FormatError>)
    ensures
        r matches Err(FormatError::ChunkedReadError(t)) && t@ == text@,
{
    Err(FormatError::ChunkedReadError(text.to_owned()))
}

/// Reads the client data.
pub fn szip_params(data: &[u8], cd: &[u32], chunk_size: usize) -> (r: Result<
    SzipParams,
    FormatError,
>)
    ensures
        match request_fault(data@, cd@, chunk_size) {
            Some(text) => r matches Err(FormatError::ChunkedReadError(t)) && t@ == text,
            None => r == Ok::<SzipParams, FormatError>(asked_params(cd@, chunk_size)),
        },
{
    if cd.len() < 5 {
        return read_error("szip: missing client data");
    }
    if cd[4] == 0 || cd[4] > 32 {
        return read_error("szip: invalid bits per sample");
    }
    if chunk_size == 0 {
        return read_error("szip: unknown output size");
    }
    if data.len() == 0 {
        return read_error("szip: empty input");
    }
    let options: u32 = cd[0];
    Ok(
        SzipParams {
            bits_per_sample: cd[4],
            block_size: cd[1],
            rsi: REFERENCE_INTERVAL,
            preprocess: (options / 0x04) % 2 == 1,
            msb: (options / 0x40) % 2 == 0,
            allow_k13: (options / 0x100) % 2 == 1,
            output_size: chunk_size,
        },
    )
}

/// What was decoded, from the decoder's return code, its output buffer, and how
/// much of the buffer it left unused.
pub fn szip_decoded(code: i32, out: Vec<u8>, unused: usize) -> (r: Result<Vec<u8>, FormatError>)
    requires
        unused <= out@.len(),
    ensures
        if code != 0 {
            r matches Err(FormatError::DecompressionError(t)) && t@ == "szip: libaec error "@
                + signed_decimal(code as int)
        } else {
            r matches Ok(v) && v@ == out@.take(out@.len() - unused)
        },
{
    if code != 0 {
        let mut text: String = "szip: libaec error ".to_owned();
        push_signed_decimal(&mut text, code as i64);
        return Err(FormatError::DecompressionError(text));
    }
    let ghost whole = out@;
    let mut v: Vec<u8> = out;
    let len: usize = v.len() - unused;
    v.truncate(len);
    assert(v@ =~= whole.take(whole.len() - unused));
    Ok(v)
}

/// Decompresses a chunk. Without a decoder every chunk is refused.
pub fn szip_decompress(data: &[u8], cd: &[u32], chunk_size: usize) -> (r: Result<
    Vec<u8>,
    FormatError,
>)
    ensures
        r == Err::<Vec<u8>, FormatError>(FormatError::UnsupportedFilter(FILTER_SZIP)),
{
    let _ = data;
    let _ = cd;
    let _ = chunk_size;
    Err(FormatError::UnsupportedFilter(FILTER_SZIP))
}

/// The options are bits: the third asks for preprocessing to be undone, the seventh
/// says that samples are stored least significant byte first, the ninth allows the
/// thirteenth option. The rest of what is asked for stands in the client data as it
/// is.
pub proof fn law_options_are_bits(cd: Seq<u32>, chunk_size: usize)
    requires
        cd.len() >= 5,
    ensures
        asked_params(cd, chunk_size).preprocess == (cd[0] & 0x04 != 0),
        asked_params(cd, chunk_size).msb == (cd[0] & 0x40 == 0),
        asked_params(cd, chunk_size).allow_k13 == (cd[0] & 0x100 != 0),
        asked_params(cd, chunk_size).bits_per_sample == cd[4],
        asked_params(cd, chunk_size).block_size == cd[1],
        asked_params(cd, chunk_size).rsi == 128,
        asked_params(cd, chunk_size).output_size == chunk_size,
{
    let v = cd[0];
    assert((v & 0x04 != 0) == ((v / 0x04) % 2 == 1) && (v & 0x40 != 0) == ((v / 0x40) % 2 == 1)
        && (v & 0x100 != 0) == ((v / 0x100) % 2 == 1)) by (bit_vector);
}

/// A request is refused if and only if client data is missing, it asks for no bits
/// or for more than 32, the size of the output is not known, or there is no input.
pub proof fn law_bad_requests_are_refused(data: Seq<u8>, cd: Seq<u32>, chunk_size: usize)
    ensures
        request_fault(data, cd, chunk_size) is None <==> cd.len() >= 5 && 1 <= cd[4] <= 32
            && chunk_size > 0 && data.len() > 0,
{
}

} // verus!
