use std::io::Read;

use cookfs::codec::{decode, decode_with};
use cookfs::{Codec, Error};

#[test]
fn from_id_maps_every_known_id_to_its_variant() {
    let cases = [
        (0u8, Codec::Stored),
        (1, Codec::Deflate),
        (2, Codec::Bzip2),
        (3, Codec::Lzma),
        (4, Codec::Zstd),
        (5, Codec::Brotli),
        (254, Codec::ModernCustom),
        (255, Codec::LegacyCustom),
    ];
    for (id, expected) in cases {
        assert!(Codec::from_id(id).unwrap() == expected);
        assert!(expected.id() == id);
    }
}

#[test]
fn from_id_rejects_unknown_ids() {
    for id in [6u8, 100, 200, 253] {
        let err = Codec::from_id(id).unwrap_err();
        assert!(matches!(err, Error::UnknownCodec { id: got } if got == id));
    }
}

#[test]
fn every_id_round_trips_or_is_rejected() {
    for id in 0..=255u8 {
        match Codec::from_id(id) {
            Ok(codec) => assert!(codec.id() == id),
            Err(e) => assert!(matches!(e, Error::UnknownCodec { id: got } if got == id)),
        }
    }
}

#[test]
fn decode_of_stored_is_identity() {
    let mut blob = vec![0u8];
    blob.extend_from_slice(b"payload bytes");
    assert!(decode(&blob, 13).unwrap() == b"payload bytes");
}

#[test]
fn decode_of_deflate_round_trips_a_known_stream() {
    let mut compressed = Vec::new();
    flate2::read::DeflateEncoder::new(
        &b"the quick brown fox jumps over the lazy dog"[..],
        flate2::Compression::default(),
    )
    .read_to_end(&mut compressed)
    .unwrap();

    let mut blob = vec![1u8];
    blob.extend_from_slice(&compressed);
    assert!(decode(&blob, 44).unwrap() == b"the quick brown fox jumps over the lazy dog");
}

#[test]
fn decode_of_legacy_custom_round_trips_a_known_stream() {
    let options = liblzma::stream::LzmaOptions::new_preset(6).unwrap();
    let stream = liblzma::stream::Stream::new_lzma_encoder(&options).unwrap();
    let mut compressed = Vec::new();
    liblzma::read::XzEncoder::new_stream(&b"legacy lzma payload"[..], stream)
        .read_to_end(&mut compressed)
        .unwrap();

    let mut blob = vec![255u8];
    blob.extend_from_slice(&compressed);
    assert!(decode(&blob, 19).unwrap() == b"legacy lzma payload");
}

/// Builds a raw LZMA1 blob in the same 5-byte-header shape id 3 uses in
/// real `CFS0003` archives: 1 properties byte, 4-byte little-endian
/// dictionary size, then a raw stream with no size field or end marker.
fn raw_lzma1(payload: &[u8]) -> Vec<u8> {
    let mut opts = liblzma::stream::LzmaOptions::new_preset(6).unwrap();
    let dict_size = 1u32 << 16;
    opts.dict_size(dict_size);
    let mut filters = liblzma::stream::Filters::new();
    filters.lzma1(&opts);
    let stream = liblzma::stream::Stream::new_raw_encoder(&filters).unwrap();
    let mut compressed = Vec::new();
    liblzma::read::XzEncoder::new_stream(payload, stream)
        .read_to_end(&mut compressed)
        .unwrap();

    let mut blob = vec![0x5Du8]; // lc=3, lp=0, pb=2: the preset's defaults
    blob.extend_from_slice(&dict_size.to_le_bytes());
    blob.extend_from_slice(&compressed);
    blob
}

#[test]
fn decode_of_lzma_round_trips_a_known_stream() {
    let compressed = raw_lzma1(b"lzma payload");
    let mut blob = vec![3u8];
    blob.extend_from_slice(&compressed);
    assert!(decode(&blob, 12).unwrap() == b"lzma payload");
}

#[test]
fn decode_with_lzma_round_trips_without_a_leading_byte() {
    let compressed = raw_lzma1(b"externally-coded payload");
    assert!(decode_with(Codec::Lzma, &compressed, 25).unwrap() == b"externally-coded payload");
}

/// A raw LZMA1 stream has no end-of-stream marker: without bounding the
/// read to the blob's own declared size, the decoder hits its internal
/// buffer boundary partway through a large payload and errors instead of
/// reporting completion.
#[test]
fn decode_of_lzma_round_trips_a_stream_larger_than_one_internal_buffer() {
    let payload: Vec<u8> = (0..200_000u32).map(|i| (i % 251) as u8).collect();
    let compressed = raw_lzma1(&payload);
    assert!(decode_with(Codec::Lzma, &compressed, payload.len()).unwrap() == payload);
}

#[test]
fn decode_with_lzma_stops_at_the_declared_size() {
    let compressed = raw_lzma1(b"externally-coded payload");
    assert!(decode_with(Codec::Lzma, &compressed, 8).unwrap() == b"external");
}

#[test]
fn decode_with_stored_is_identity() {
    assert!(decode_with(Codec::Stored, b"payload bytes", 13).unwrap() == b"payload bytes");
}

#[test]
fn decode_of_unimplemented_codecs_reports_unavailable() {
    for id in [2u8, 4, 5, 254] {
        let blob = vec![id, 0, 1, 2, 3];
        let err = decode(&blob, 3).unwrap_err();
        assert!(matches!(err, Error::CodecUnavailable { id: got, .. } if got == id));
    }
}

#[test]
fn decode_of_an_empty_blob_errors() {
    assert!(matches!(decode(&[], 0), Err(Error::EmptyBlob)));
}

#[test]
fn decode_of_an_unknown_id_errors() {
    assert!(matches!(
        decode(&[42, 1, 2], 1),
        Err(Error::UnknownCodec { id: 42 })
    ));
}

#[test]
fn decode_of_a_corrupt_deflate_stream_reports_the_codec() {
    assert!(matches!(
        decode(&[1, 0xFF, 0xFF, 0xFF], 4),
        Err(Error::Decompress { codec: "deflate" })
    ));
}

#[test]
fn decode_of_a_corrupt_legacy_stream_reports_lzma() {
    assert!(matches!(
        decode(&[255, 1, 2, 3], 4),
        Err(Error::Decompress { codec: "lzma" })
    ));
}

#[test]
fn decode_with_names_the_unavailable_codec() {
    assert!(matches!(
        decode_with(Codec::Zstd, b"x", 1),
        Err(Error::CodecUnavailable { id: 4, feature: "zstd" })
    ));
    assert!(matches!(
        decode_with(Codec::Bzip2, b"x", 1),
        Err(Error::CodecUnavailable { id: 2, feature: "bzip2" })
    ));
}
