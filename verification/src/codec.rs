//! Codec dispatch for page and fsindex blobs.
//!
//! Every blob a CFS0002 archive stores, whether a page or the fsindex itself,
//! opens with a 1-byte codec id naming how the rest of the blob is compressed.
use std::io::Read;

use vstd::prelude::*;

use crate::read::{Error, Result};

verus! {

/// A compression codec named by a blob's leading id byte.
///
/// Every id a CFS0002 archive is known to emit is represented here, even ids
/// this build cannot decode: [`Codec::from_id`] should never fail on a real
/// archive, only `decode` should, and only for the codecs not yet wired up.
#[non_exhaustive]
#[derive(Debug, Clone, Copy, PartialEq, Eq, Structural)]
pub enum Codec {
    /// Uncompressed passthrough (id 0).
    Stored,
    /// zlib/deflate (id 1).
    Deflate,
    /// bzip2 (id 2). Not yet decodable by this build.
    Bzip2,
    /// Raw LZMA1 (id 3): `CFS0003`'s own codec, distinct from BitRock's
    /// `.lzma`-alone container at id 255 despite sharing an algorithm.
    Lzma,
    /// Zstandard (id 4). Not yet decodable by this build.
    Zstd,
    /// Brotli (id 5). Not yet decodable by this build.
    Brotli,
    /// BitRock's legacy LZMA-alone codec, wired into the custom slot (id 255).
    LegacyCustom,
    /// The modern custom codec slot (id 254). Not yet decodable by this build.
    ModernCustom,
}

/// The codec a wire id names, if any.
pub open spec fn codec_of(id: u8) -> Option<Codec> {
    if id == 0 {
        Some(Codec::Stored)
    } else if id == 1 {
        Some(Codec::Deflate)
    } else if id == 2 {
        Some(Codec::Bzip2)
    } else if id == 3 {
        Some(Codec::Lzma)
    } else if id == 4 {
        Some(Codec::Zstd)
    } else if id == 5 {
        Some(Codec::Brotli)
    } else if id == 254 {
        Some(Codec::ModernCustom)
    } else if id == 255 {
        Some(Codec::LegacyCustom)
    } else {
        None
    }
}

impl Codec {
    /// The wire id of a codec.
    pub open spec fn wire_id(self) -> u8 {
        match self {
            Codec::Stored => 0,
            Codec::Deflate => 1,
            Codec::Bzip2 => 2,
            Codec::Lzma => 3,
            Codec::Zstd => 4,
            Codec::Brotli => 5,
            Codec::ModernCustom => 254,
            Codec::LegacyCustom => 255,
        }
    }

    /// Maps a blob's wire codec id to its variant.
    ///
    /// Returns [`Error::UnknownCodec`] for any id outside the known set.
    pub fn from_id(id: u8) -> (r: Result<Self>)
        ensures
            match r {
                Ok(c) => codec_of(id) == Some(c),
                Err(e) => codec_of(id) is None && e == (Error::UnknownCodec { id }),
            },
    {
        match id {
            0 => Ok(Self::Stored),
            1 => Ok(Self::Deflate),
            2 => Ok(Self::Bzip2),
            3 => Ok(Self::Lzma),
            4 => Ok(Self::Zstd),
            5 => Ok(Self::Brotli),
            254 => Ok(Self::ModernCustom),
            255 => Ok(Self::LegacyCustom),
            id => Err(Error::UnknownCodec { id }),
        }
    }

    /// The wire id this variant was decoded from.
    pub fn id(self) -> (r: u8)
        ensures
            r == self.wire_id(),
    {
        match self {
            Self::Stored => 0,
            Self::Deflate => 1,
            Self::Bzip2 => 2,
            Self::Lzma => 3,
            Self::Zstd => 4,
            Self::Brotli => 5,
            Self::ModernCustom => 254,
            Self::LegacyCustom => 255,
        }
    }
}

/// Every codec is named by its own wire id.
pub proof fn lemma_codec_of_wire_id(c: Codec)
    ensures
        codec_of(c.wire_id()) == Some(c),
{
}

/// A known wire id is the wire id of the codec it names: ids and codecs are
/// in one-to-one correspondence.
pub proof fn lemma_wire_id_of_codec(id: u8)
    ensures
        codec_of(id) matches Some(c) ==> c.wire_id() == id,
{
}

/// What `flate2`'s raw deflate decoder produces from `body`, or `None` where
/// it rejects it.
pub uninterp spec fn inflated(body: Seq<u8>) -> Option<Seq<u8>>;

/// What `liblzma`'s `.lzma`-alone decoder produces from `body`, or `None`
/// where it rejects it.
pub uninterp spec fn lzma_alone_decoded(body: Seq<u8>) -> Option<Seq<u8>>;

/// What `liblzma`'s raw LZMA1 decoder, configured by the 5-byte properties
/// `header`, produces from `payload` when read up to `limit` bytes, or
/// `None` where it rejects them.
pub uninterp spec fn lzma1_raw_decoded(header: Seq<u8>, payload: Seq<u8>, limit: nat) -> Option<
    Seq<u8>,
>;

/// The header length of a raw LZMA1 blob: one properties byte and a 4-byte
/// dictionary size.
pub const LZMA1_HEADER_LEN: usize = 5;

/// How the rest of a raw LZMA1 blob splits into header and payload.
pub open spec fn lzma1_header_len(body: Seq<u8>) -> int {
    if body.len() < LZMA1_HEADER_LEN { body.len() as int } else { LZMA1_HEADER_LEN as int }
}

/// What decoding `body` with `codec` yields.
pub open spec fn decoded_with(codec: Codec, body: Seq<u8>, uncompressed_len: nat) -> core::result::Result<
    Seq<u8>,
    Error,
> {
    match codec {
        Codec::Stored => Ok(body),
        Codec::Deflate => match inflated(body) {
            Some(v) => Ok(v),
            None => Err(Error::Decompress { codec: "deflate" }),
        },
        Codec::Lzma => {
            let h = lzma1_header_len(body);
            match lzma1_raw_decoded(body.take(h), body.skip(h), uncompressed_len) {
                Some(v) => Ok(v),
                None => Err(Error::Decompress { codec: "lzma" }),
            }
        },
        Codec::LegacyCustom => match lzma_alone_decoded(body) {
            Some(v) => Ok(v),
            None => Err(Error::Decompress { codec: "lzma" }),
        },
        Codec::Bzip2 => Err(Error::CodecUnavailable { id: 2, feature: "bzip2" }),
        Codec::Zstd => Err(Error::CodecUnavailable { id: 4, feature: "zstd" }),
        Codec::Brotli => Err(Error::CodecUnavailable { id: 5, feature: "brotli" }),
        Codec::ModernCustom => Err(Error::CodecUnavailable { id: 254, feature: "modern-custom" }),
    }
}

/// What decoding a blob with a leading codec id byte yields.
pub open spec fn decoded(blob: Seq<u8>, uncompressed_len: nat) -> core::result::Result<
    Seq<u8>,
    Error,
> {
    if blob.len() == 0 {
        Err(Error::EmptyBlob)
    } else {
        match codec_of(blob[0]) {
            Some(c) => decoded_with(c, blob.skip(1), uncompressed_len),
            None => Err(Error::UnknownCodec { id: blob[0] }),
        }
    }
}

/// Whether an executable decode result is the spec result `s`.
pub open spec fn same_result(r: core::result::Result<Vec<u8>, Error>, s: core::result::Result<Seq<u8>, Error>) -> bool {
    match r {
        Ok(v) => s == Ok::<Seq<u8>, Error>(v@),
        Err(e) => s == Err::<Seq<u8>, Error>(e),
    }
}

/// Decodes one blob: a leading 1-byte codec id, then the compressed payload.
///
/// `uncompressed_len` is the blob's own declared decompressed size; only
/// [`Codec::Lzma`] needs it, since a raw LZMA1 stream has no end-of-stream
/// marker to decode toward.
///
/// Returns [`Error::EmptyBlob`] for a zero-length blob,
/// [`Error::UnknownCodec`] for an id outside the known set,
/// [`Error::CodecUnavailable`] for a known id this build cannot decode,
/// and [`Error::Decompress`] if a codec's decoder rejects the payload.
pub fn decode(blob: &[u8], uncompressed_len: usize) -> (r: Result<Vec<u8>>)
    ensures
        same_result(r, decoded(blob@, uncompressed_len as nat)),
{
    if blob.len() == 0 {
        return Err(Error::EmptyBlob);
    }
    let (first, body) = blob.split_at(1);
    assert(body@ == blob@.skip(1));
    let codec = Codec::from_id(first[0])?;
    decode_with(codec, body, uncompressed_len)
}

/// Decodes a payload whose codec is already known, with no leading id byte.
///
/// `CFS0003` names each page's codec out of band, in the pgindex table, so
/// its page and index blobs carry no leading id byte for [`decode`] to strip.
///
/// Returns [`Error::CodecUnavailable`] for a known id this build cannot
/// decode, and [`Error::Decompress`] if the codec's decoder rejects the
/// payload.
pub fn decode_with(codec: Codec, body: &[u8], uncompressed_len: usize) -> (r: Result<Vec<u8>>)
    ensures
        same_result(r, decoded_with(codec, body@, uncompressed_len as nat)),
        codec == Codec::Lzma && r is Ok ==> r->Ok_0@.len() <= uncompressed_len,
{
    match codec {
        Codec::Stored => Ok(vstd::slice::slice_to_vec(body)),
        Codec::Deflate => decode_deflate(body),
        Codec::Lzma => decode_raw_lzma1(body, uncompressed_len),
        Codec::LegacyCustom => decode_lzma_alone(body),
        Codec::Bzip2 => unavailable(codec, "bzip2"),
        Codec::Zstd => unavailable(codec, "zstd"),
        Codec::Brotli => unavailable(codec, "brotli"),
        Codec::ModernCustom => unavailable(codec, "modern-custom"),
    }
}

/// The error for a codec this build knows but cannot decode.
fn unavailable(codec: Codec, feature: &'static str) -> (r: Result<Vec<u8>>)
    ensures
        r == Err::<Vec<u8>, Error>(Error::CodecUnavailable { id: codec.wire_id(), feature }),
{
    Err(Error::CodecUnavailable { id: codec.id(), feature })
}

/// `flate2::read::DeflateDecoder` read to its end over `body`.
///
/// The decoder's output, or its failure, depends on `body` alone; the
/// contract names it `inflated` and claims nothing more of it.
#[verifier::external_body]
fn inflate(body: &[u8]) -> (r: Option<Vec<u8>>)
    ensures
        match r {
            Some(v) => inflated(body@) == Some(v@),
            None => inflated(body@) is None,
        },
{
    let mut out = Vec::new();
    match flate2::read::DeflateDecoder::new(body).read_to_end(&mut out) {
        Ok(_) => Some(out),
        Err(_) => None,
    }
}

fn decode_deflate(body: &[u8]) -> (r: Result<Vec<u8>>)
    ensures
        same_result(r, decoded_with(Codec::Deflate, body@, 0)),
{
    match inflate(body) {
        Some(out) => Ok(out),
        None => Err(Error::Decompress { codec: "deflate" }),
    }
}

/// `liblzma::stream::Stream::new_lzma_decoder` with no memory limit, read to
/// its end through `liblzma::read::XzDecoder::new_stream` over `body`.
///
/// The `.lzma`-alone container carries its own 13-byte header, which the
/// decoder consumes itself; its output, or its failure, depends on `body`
/// alone, and the contract names it `lzma_alone_decoded`.
#[verifier::external_body]
fn lzma_alone(body: &[u8]) -> (r: Option<Vec<u8>>)
    ensures
        match r {
            Some(v) => lzma_alone_decoded(body@) == Some(v@),
            None => lzma_alone_decoded(body@) is None,
        },
{
    let stream = match liblzma::stream::Stream::new_lzma_decoder(u64::MAX) {
        Ok(stream) => stream,
        Err(_) => return None,
    };
    let mut out = Vec::new();
    match liblzma::read::XzDecoder::new_stream(body, stream).read_to_end(&mut out) {
        Ok(_) => Some(out),
        Err(_) => None,
    }
}

/// BitRock's legacy custom slot (id 255): the classic `.lzma`-alone
/// container.
fn decode_lzma_alone(body: &[u8]) -> (r: Result<Vec<u8>>)
    ensures
        same_result(r, decoded_with(Codec::LegacyCustom, body@, 0)),
{
    match lzma_alone(body) {
        Some(out) => Ok(out),
        None => Err(Error::Decompress { codec: "lzma" }),
    }
}

/// A raw LZMA1 decoder: `liblzma::stream::Filters::lzma1_properties` over
/// `header`, `liblzma::stream::Stream::new_raw_decoder` over those filters,
/// and `liblzma::read::XzDecoder::new_stream` over `payload`, read to its end
/// through `std::io::Read::take(limit)`.
///
/// The output, or the failure, depends on the three arguments alone; the
/// contract names it `lzma1_raw_decoded`. The one further claim is the one
/// `Read::take` documents: no more than `limit` bytes come out.
#[verifier::external_body]
fn lzma1_raw(header: &[u8], payload: &[u8], limit: u64) -> (r: Option<Vec<u8>>)
    ensures
        match r {
            Some(v) => lzma1_raw_decoded(header@, payload@, limit as nat) == Some(v@) && v@.len()
                <= limit,
            None => lzma1_raw_decoded(header@, payload@, limit as nat) is None,
        },
{
    let mut filters = liblzma::stream::Filters::new();
    if filters.lzma1_properties(header).is_err() {
        return None;
    }
    let stream = match liblzma::stream::Stream::new_raw_decoder(&filters) {
        Ok(stream) => stream,
        Err(_) => return None,
    };
    let mut out = Vec::new();
    match liblzma::read::XzDecoder::new_stream(payload, stream).take(limit).read_to_end(&mut out) {
        Ok(_) => Some(out),
        Err(_) => None,
    }
}

/// `CFS0003`'s id-3 LZMA blobs (pages, pgindex, fsindex) are raw LZMA1
/// streams: a 5-byte properties header (1 properties byte, 4-byte
/// little-endian dictionary size) with no uncompressed-size field and no
/// end-of-stream marker, so the read is bounded to `uncompressed_len`.
fn decode_raw_lzma1(body: &[u8], uncompressed_len: usize) -> (r: Result<Vec<u8>>)
    ensures
        same_result(r, decoded_with(Codec::Lzma, body@, uncompressed_len as nat)),
        r matches Ok(v) ==> v@.len() <= uncompressed_len,
{
    let split = if body.len() < LZMA1_HEADER_LEN {
        body.len()
    } else {
        LZMA1_HEADER_LEN
    };
    let (header, payload) = body.split_at(split);
    assert(header@ == body@.take(split as int));
    assert(payload@ == body@.skip(split as int));
    match lzma1_raw(header, payload, uncompressed_len as u64) {
        Some(out) => Ok(out),
        None => Err(Error::Decompress { codec: "lzma" }),
    }
}

} // verus!
