use cookfs::parsers::cfs0003::{parse, signature, PgIndex, Trailer};
use cookfs::{Codec, Error, PageCodec};

/// One trailer blob descriptor: compression id, MD5, and both sizes.
#[derive(Clone, Copy)]
struct BlobDescriptor {
    compression: u8,
    md5: [u8; 16],
    size_compressed: u32,
    size_uncompressed: u32,
}

impl BlobDescriptor {
    fn zero() -> Self {
        Self {
            compression: 0,
            md5: [0u8; 16],
            size_compressed: 0,
            size_uncompressed: 0,
        }
    }
}

/// Appends the 55 fixed trailer bytes for the given field values.
fn push_trailer(buf: &mut Vec<u8>, pgindex: BlobDescriptor, fsindex: BlobDescriptor, encryption: u8) {
    buf.push(1); // base_compression
    buf.push(6); // base_compression_level
    buf.push(encryption);
    buf.push(pgindex.compression);
    buf.push(9); // pgindex_compression_level
    buf.extend_from_slice(&pgindex.md5);
    buf.extend_from_slice(&pgindex.size_compressed.to_be_bytes());
    buf.extend_from_slice(&pgindex.size_uncompressed.to_be_bytes());
    buf.push(fsindex.compression);
    buf.push(9); // fsindex_compression_level
    buf.extend_from_slice(&fsindex.md5);
    buf.extend_from_slice(&fsindex.size_compressed.to_be_bytes());
    buf.extend_from_slice(&fsindex.size_uncompressed.to_be_bytes());
}

#[test]
fn trailer_parses_an_empty_archive_with_zero_pages() {
    let mut buf = Vec::new();
    push_trailer(&mut buf, BlobDescriptor::zero(), BlobDescriptor::zero(), 0);
    let sig_at = buf.len() as u64;
    buf.extend_from_slice(&signature());

    let trailer = Trailer::parse(buf.as_slice(), sig_at).unwrap();
    assert!(trailer.pgindex_size_compressed == 0);
    assert!(trailer.fsindex_size_compressed == 0);
    assert!(trailer.encryption == 0);
}

#[test]
fn trailer_round_trips_pgindex_and_fsindex_descriptors() {
    let pgindex_md5 = [0xAAu8; 16];
    let fsindex_md5 = [0xBBu8; 16];
    let pgindex = BlobDescriptor {
        compression: 2,
        md5: pgindex_md5,
        size_compressed: 58,
        size_uncompressed: 100,
    };
    let fsindex = BlobDescriptor {
        compression: 3,
        md5: fsindex_md5,
        size_compressed: 200,
        size_uncompressed: 500,
    };
    let mut buf = Vec::new();
    push_trailer(&mut buf, pgindex, fsindex, 0x78);
    let sig_at = buf.len() as u64;
    buf.extend_from_slice(&signature());

    let trailer = Trailer::parse(buf.as_slice(), sig_at).unwrap();
    assert!(trailer.base_compression == 1);
    assert!(trailer.base_compression_level == 6);
    assert!(trailer.encryption == 0x78);
    assert!(trailer.pgindex_compression == 2);
    assert!(trailer.pgindex_compression_level == 9);
    assert!(trailer.pgindex_md5 == pgindex_md5);
    assert!(trailer.pgindex_size_compressed == 58);
    assert!(trailer.pgindex_size_uncompressed == 100);
    assert!(trailer.fsindex_compression == 3);
    assert!(trailer.fsindex_compression_level == 9);
    assert!(trailer.fsindex_md5 == fsindex_md5);
    assert!(trailer.fsindex_size_compressed == 200);
    assert!(trailer.fsindex_size_uncompressed == 500);
}

#[test]
fn trailer_rejects_a_signature_too_close_to_the_start() {
    let buf = vec![0u8; 10];
    assert!(matches!(Trailer::parse(buf.as_slice(), 10), Err(Error::BadPageTable)));
}

#[test]
fn trailer_reports_fields_past_the_source() {
    let buf = vec![0u8; 10];
    assert!(matches!(Trailer::parse(buf.as_slice(), 60), Err(Error::Io { offset: 5 })));
}

fn pgindex_blob(compr: &[u8], size_compressed: &[u32], size_uncompressed: &[u32]) -> Vec<u8> {
    let n = compr.len();
    let mut blob = (n as u32).to_be_bytes().to_vec();
    blob.extend_from_slice(compr);
    blob.extend_from_slice(&vec![6u8; n]); // comprlevellist
    blob.extend_from_slice(&vec![0u8; n]); // encryptionlist
    for &s in size_compressed {
        blob.extend_from_slice(&s.to_be_bytes());
    }
    for &s in size_uncompressed {
        blob.extend_from_slice(&s.to_be_bytes());
    }
    blob.extend_from_slice(&vec![0u8; n * 16]); // md5
    blob
}

#[test]
fn pgindex_parses_comprlist_and_sizes_for_two_pages() {
    let blob = pgindex_blob(&[3, 0], &[100, 200], &[50, 150]);
    let idx = PgIndex::parse(&blob).unwrap();
    assert!(idx.compr == vec![3, 0]);
    assert!(idx.size_compressed == vec![100, 200]);
    assert!(idx.size_uncompressed == vec![50, 150]);
}

#[test]
fn pgindex_parses_zero_pages() {
    let blob = pgindex_blob(&[], &[], &[]);
    let idx = PgIndex::parse(&blob).unwrap();
    assert!(idx.compr.is_empty());
}

#[test]
fn pgindex_errors_instead_of_panicking_on_truncation() {
    let mut blob = pgindex_blob(&[3, 0], &[100, 200], &[50, 150]);
    blob.truncate(blob.len() - 5);
    assert!(matches!(PgIndex::parse(&blob), Err(Error::Truncated { .. })));
}

#[test]
fn pgindex_reports_where_the_digests_ran_out() {
    let mut blob = pgindex_blob(&[3, 0], &[100, 200], &[50, 150]);
    blob.truncate(blob.len() - 5);
    let len = blob.len();
    assert!(matches!(
        PgIndex::parse(&blob),
        Err(Error::Truncated { pos: 26, need: 32, len: l }) if l == len
    ));
}

#[test]
fn pgindex_ignores_bytes_past_the_digests() {
    let mut blob = pgindex_blob(&[1], &[7], &[9]);
    blob.extend_from_slice(b"extra");
    let idx = PgIndex::parse(&blob).unwrap();
    assert!(idx.compr == vec![1]);
    assert!(idx.size_compressed == vec![7]);
    assert!(idx.size_uncompressed == vec![9]);
}

/// A whole `CFS0003` page table: two stored pages, a stored pgindex and a
/// stored fsindex, then the trailer.
#[test]
fn parse_lays_out_pages_behind_the_pgindex() {
    let pgindex = pgindex_blob(&[0, 1], &[4, 6], &[4, 60]);
    let fsindex = b"fsindex!";
    let mut buf = vec![0u8; 10]; // both pages, back to back
    buf.extend_from_slice(&pgindex);
    buf.extend_from_slice(fsindex);
    let pg = BlobDescriptor {
        compression: 0,
        md5: [0; 16],
        size_compressed: pgindex.len() as u32,
        size_uncompressed: pgindex.len() as u32,
    };
    let fs = BlobDescriptor {
        compression: 3,
        md5: [0; 16],
        size_compressed: fsindex.len() as u32,
        size_uncompressed: 99,
    };
    push_trailer(&mut buf, pg, fs, 0x78);
    let sig_at = buf.len() as u64;
    buf.extend_from_slice(&signature());

    let layout = parse(buf.as_slice(), sig_at).unwrap();
    assert!(layout.pages.entries.len() == 2);
    assert!(layout.pages.entries[0].offset == 0);
    assert!(layout.pages.entries[1].offset == 4);
    assert!(layout.pages.entries[1].compressed_len == 6);
    assert!(layout.pages.entries[1].uncompressed_len == 60);
    assert!(layout.pages.entries[0].codec == PageCodec::External(Codec::Stored));
    assert!(layout.pages.entries[1].codec == PageCodec::External(Codec::Deflate));
    assert!(layout.fsindex_at == (10 + pgindex.len()) as u64);
    assert!(layout.fsindex_len == fsindex.len());
    assert!(layout.fsindex_uncompressed_len == Some(99));
    assert!(layout.fsindex_codec == PageCodec::External(Codec::Lzma));
    assert!(layout.encryption == Some(0x78));
}

#[test]
fn parse_rejects_an_unknown_page_codec() {
    let pgindex = pgindex_blob(&[9], &[0], &[0]);
    let mut buf = pgindex.clone();
    let pg = BlobDescriptor {
        compression: 0,
        md5: [0; 16],
        size_compressed: pgindex.len() as u32,
        size_uncompressed: pgindex.len() as u32,
    };
    push_trailer(&mut buf, pg, BlobDescriptor::zero(), 0);
    let sig_at = buf.len() as u64;
    buf.extend_from_slice(&signature());
    assert!(matches!(parse(buf.as_slice(), sig_at), Err(Error::UnknownCodec { id: 9 })));
}

#[test]
fn parse_rejects_blobs_that_reach_before_the_start() {
    let fs = BlobDescriptor {
        compression: 0,
        md5: [0; 16],
        size_compressed: 1000,
        size_uncompressed: 0,
    };
    let mut buf = Vec::new();
    push_trailer(&mut buf, BlobDescriptor::zero(), fs, 0);
    let sig_at = buf.len() as u64;
    buf.extend_from_slice(&signature());
    assert!(matches!(parse(buf.as_slice(), sig_at), Err(Error::BadPageTable)));
}

#[test]
fn the_signature_spells_cfs0003() {
    assert!(signature() == b"CFS0003");
}
