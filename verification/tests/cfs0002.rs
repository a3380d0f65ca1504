use cookfs::parsers::cfs0002::{parse, signature};
use cookfs::{Error, PageCodec};

/// Builds a minimal trailer with zero pages: fsindex blob, then the
/// 9-byte head, then the signature.
fn minimal_trailer_buffer(fsindex: &[u8], codec: u8) -> (Vec<u8>, u64) {
    let mut buf = fsindex.to_vec();
    buf.extend_from_slice(&(fsindex.len() as u32).to_be_bytes());
    buf.extend_from_slice(&0u32.to_be_bytes());
    buf.push(codec);
    let sig_at = buf.len() as u64;
    buf.extend_from_slice(&signature());
    (buf, sig_at)
}

#[test]
fn parse_reads_an_empty_archive_with_zero_pages() {
    let (buf, sig_at) = minimal_trailer_buffer(b"fake-fsindex", 3);
    let layout = parse(buf.as_slice(), sig_at).unwrap();

    assert!(layout.fsindex_at == 0);
    assert!(layout.fsindex_len == 12);
    assert!(layout.pages.entries.is_empty());
    assert!(layout.encryption.is_none());
}

#[test]
fn parse_reads_pages_with_offsets_and_sizes() {
    let mut buf = Vec::new();
    buf.extend_from_slice(&[0u8; 10]); // page 0 compressed data
    buf.extend_from_slice(&[0u8; 20]); // page 1 compressed data

    let mut meta0 = vec![0u8; 16];
    meta0[8..12].copy_from_slice(&100u32.to_be_bytes());
    let mut meta1 = vec![0u8; 16];
    meta1[8..12].copy_from_slice(&200u32.to_be_bytes());
    buf.extend_from_slice(&meta0);
    buf.extend_from_slice(&meta1);

    buf.extend_from_slice(&10u32.to_be_bytes());
    buf.extend_from_slice(&20u32.to_be_bytes());

    let fsindex = b"fake-fsindex-blob";
    buf.extend_from_slice(fsindex);

    buf.extend_from_slice(&(fsindex.len() as u32).to_be_bytes());
    buf.extend_from_slice(&2u32.to_be_bytes());
    buf.push(7);

    let sig_at = buf.len() as u64;
    buf.extend_from_slice(&signature());

    let layout = parse(buf.as_slice(), sig_at).unwrap();
    assert!(layout.pages.entries.len() == 2);
    assert!(layout.pages.entries[0].offset == 0);
    assert!(layout.pages.entries[0].compressed_len == 10);
    assert!(layout.pages.entries[0].uncompressed_len == 100);
    assert!(layout.pages.entries[1].offset == 10);
    assert!(layout.pages.entries[1].compressed_len == 20);
    assert!(layout.pages.entries[1].uncompressed_len == 200);
    assert!(matches!(layout.pages.entries[0].codec, PageCodec::Prefixed));
    assert!(layout.fsindex_at == 30 + 32 + 8);
    assert!(layout.fsindex_len == fsindex.len());
    assert!(layout.fsindex_uncompressed_len.is_none());
    assert!(layout.fsindex_codec == PageCodec::Prefixed);
}

#[test]
fn parse_rejects_a_page_table_that_underflows() {
    // page_count claims more pages than the buffer could ever hold.
    let mut buf = vec![0u8; 9];
    buf[0..4].copy_from_slice(&0u32.to_be_bytes());
    buf[4..8].copy_from_slice(&u32::MAX.to_be_bytes());
    let sig_at = 9u64;
    let mut full = buf;
    full.extend_from_slice(&signature());
    assert!(matches!(parse(full.as_slice(), sig_at), Err(Error::BadPageTable)));
}

#[test]
fn parse_rejects_a_signature_too_close_to_the_start() {
    let buf = vec![0u8; 5];
    assert!(matches!(parse(buf.as_slice(), 5), Err(Error::BadPageTable)));
}

#[test]
fn parse_reports_a_head_past_the_source() {
    let buf = vec![0u8; 5];
    assert!(matches!(parse(buf.as_slice(), 20), Err(Error::Io { offset: 11 })));
}

#[test]
fn the_signature_spells_cfs0002() {
    assert!(signature() == b"CFS0002");
}
