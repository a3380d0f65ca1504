use std::io::Read;

use cookfs::parsers::{cfs0002, cfs0003};
use cookfs::{Archive, ArchiveVersion, Block, Error};

const MAGIC: &[u8] = b"CFS2.200";

/// A codec-`Stored` blob: a leading id byte of 0, then the payload as-is.
fn stored(payload: &[u8]) -> Vec<u8> {
    let mut blob = vec![0u8];
    blob.extend_from_slice(payload);
    blob
}

fn file_entry(name: &str, blocks: &[Block]) -> Vec<u8> {
    let mut out = vec![name.len() as u8];
    out.extend_from_slice(name.as_bytes());
    out.push(0);
    out.extend_from_slice(&0i64.to_be_bytes()); // mtime
    out.extend_from_slice(&(blocks.len() as i32).to_be_bytes());
    for block in blocks {
        out.extend_from_slice(&block.page.to_be_bytes());
        out.extend_from_slice(&block.offset.to_be_bytes());
        out.extend_from_slice(&block.size.to_be_bytes());
    }
    out
}

/// A plain fsindex listing `files` at the root.
fn fsindex_of(files: &[(&str, Vec<Block>)]) -> Vec<u8> {
    let mut plain = MAGIC.to_vec();
    plain.extend_from_slice(&(files.len() as u32).to_be_bytes());
    for (name, blocks) in files {
        plain.extend_from_slice(&file_entry(name, blocks));
    }
    plain.extend_from_slice(&0u32.to_be_bytes()); // zero metadata records
    plain
}

/// A complete `CFS0002` archive over the given page blobs (each with its
/// leading codec byte) and their declared decompressed sizes, and an
/// fsindex blob.
fn cfs0002_archive(pages: &[(Vec<u8>, u32)], fsindex: &[u8]) -> Vec<u8> {
    let mut buf = Vec::new();
    for (page, _) in pages {
        buf.extend_from_slice(page); // pages_at == 0
    }
    for (_, uncompressed) in pages {
        let mut meta = vec![0u8; 16];
        meta[8..12].copy_from_slice(&uncompressed.to_be_bytes());
        buf.extend_from_slice(&meta);
    }
    for (page, _) in pages {
        buf.extend_from_slice(&(page.len() as u32).to_be_bytes());
    }
    buf.extend_from_slice(fsindex);
    buf.extend_from_slice(&(fsindex.len() as u32).to_be_bytes());
    buf.extend_from_slice(&(pages.len() as u32).to_be_bytes());
    buf.push(0); // archive-wide codec, informational only
    buf.extend_from_slice(&cfs0002::signature());
    buf
}

/// Builds a complete, minimal CFS0002 archive holding one file at the
/// root, everything encoded with the `Stored` codec.
fn one_file_archive() -> (Vec<u8>, Vec<u8>) {
    let payload = b"hello world!".to_vec();
    let block = Block {
        page: 0,
        offset: 0,
        size: payload.len() as i32,
    };
    let fsindex = stored(&fsindex_of(&[("hello.txt", vec![block])]));
    let buf = cfs0002_archive(&[(stored(&payload), payload.len() as u32)], &fsindex);
    (buf, payload)
}

/// The one-file archive, with a second root file "bad" made of `block`.
fn archive_with_a_bad_block(block: Block) -> Vec<u8> {
    let payload = b"hello world!".to_vec();
    let good = Block {
        page: 0,
        offset: 0,
        size: payload.len() as i32,
    };
    let fsindex = stored(&fsindex_of(&[("hello.txt", vec![good]), ("bad", vec![block])]));
    cfs0002_archive(&[(stored(&payload), payload.len() as u32)], &fsindex)
}

/// Builds a complete, minimal CFS0003 archive holding one file at the
/// root, everything encoded with the `Stored` codec.
fn one_file_archive_v3() -> (Vec<u8>, Vec<u8>) {
    let payload = b"hello v3!".to_vec();
    let page = payload.clone(); // Stored: no leading id byte at all

    let block = Block {
        page: 0,
        offset: 0,
        size: payload.len() as i32,
    };
    let fsindex = fsindex_of(&[("hello.txt", vec![block])]);

    let mut pgindex = 1u32.to_be_bytes().to_vec();
    pgindex.push(0); // comprlist: Stored
    pgindex.push(0); // comprlevellist
    pgindex.push(0); // encryptionlist
    pgindex.extend_from_slice(&(page.len() as u32).to_be_bytes());
    pgindex.extend_from_slice(&(payload.len() as u32).to_be_bytes());
    pgindex.extend_from_slice(&[0u8; 16]); // md5

    let mut buf = Vec::new();
    buf.extend_from_slice(&page); // pages_at == 0
    buf.extend_from_slice(&pgindex);
    buf.extend_from_slice(&fsindex);

    buf.push(0); // base_compression
    buf.push(0); // base_compression_level
    buf.push(0x78); // encryption
    buf.push(0); // pgindex_compression: Stored
    buf.push(0); // pgindex_compression_level
    buf.extend_from_slice(&[0u8; 16]); // pgindex_md5
    buf.extend_from_slice(&(pgindex.len() as u32).to_be_bytes());
    buf.extend_from_slice(&(pgindex.len() as u32).to_be_bytes());
    buf.push(0); // fsindex_compression: Stored
    buf.push(0); // fsindex_compression_level
    buf.extend_from_slice(&[0u8; 16]); // fsindex_md5
    buf.extend_from_slice(&(fsindex.len() as u32).to_be_bytes());
    buf.extend_from_slice(&(fsindex.len() as u32).to_be_bytes());

    buf.extend_from_slice(&cfs0003::signature());

    (buf, payload)
}

fn paths(archive: &Archive) -> Vec<String> {
    archive.walk().into_iter().map(|(path, _)| path).collect()
}

#[test]
fn open_reads_the_trailer_and_walks_the_one_file_it_holds() {
    let (buf, _) = one_file_archive();
    let archive = Archive::open(buf).unwrap();
    assert!(paths(&archive) == vec!["hello.txt".to_owned()]);
}

#[test]
fn read_returns_the_files_decompressed_bytes() {
    let (buf, payload) = one_file_archive();
    let mut archive = Archive::open(buf).unwrap();

    let (_, idx) = archive.walk().into_iter().next().unwrap();
    assert!(archive.read(idx).unwrap() == payload);
}

#[test]
fn node_looks_up_the_file_by_its_handle() {
    let (buf, payload) = one_file_archive();
    let archive = Archive::open(buf).unwrap();

    let (_, idx) = archive.walk().into_iter().next().unwrap();
    let node = archive.node(idx);
    assert!(!node.is_dir());
    assert!(node.size() == payload.len() as u64);
}

#[test]
fn open_fails_without_a_signature() {
    assert!(matches!(Archive::open(vec![0u8; 32]), Err(Error::NoSignature)));
}

/// A corrupted archive could hand a caller a block with a negative field;
/// the raw cast to an unsigned size would wrap into a huge value.
#[test]
fn read_rejects_a_block_with_a_negative_field() {
    let buf = archive_with_a_bad_block(Block {
        page: 0,
        offset: -1,
        size: 4,
    });
    let mut archive = Archive::open(buf).unwrap();
    let (path, bad) = archive.walk().into_iter().next().unwrap();
    assert!(path == "bad");

    assert!(matches!(
        archive.read(bad),
        Err(Error::BadBlock {
            page: 0,
            offset: -1,
            size: 4
        })
    ));
}

#[test]
fn open_reads_a_cfs0003_archive_and_walks_its_one_file() {
    let (buf, _) = one_file_archive_v3();
    let archive = Archive::open(buf).unwrap();

    assert!(archive.version() == ArchiveVersion::Cfs0003);
    assert!(paths(&archive) == vec!["hello.txt".to_owned()]);
}

#[test]
fn read_returns_a_cfs0003_files_decompressed_bytes() {
    let (buf, payload) = one_file_archive_v3();
    let mut archive = Archive::open(buf).unwrap();

    let (_, idx) = archive.walk().into_iter().next().unwrap();
    assert!(archive.read(idx).unwrap() == payload);
}

#[test]
fn a_cfs0002_archive_reports_its_own_version_and_no_encryption_byte() {
    let (buf, _) = one_file_archive();
    let archive = Archive::open(buf).unwrap();

    assert!(archive.version() == ArchiveVersion::Cfs0002);
    assert!(archive.encryption().is_none());
}

#[test]
fn a_cfs0003_archive_reports_its_own_version_and_encryption_byte() {
    let (buf, _) = one_file_archive_v3();
    let archive = Archive::open(buf).unwrap();

    assert!(archive.version() == ArchiveVersion::Cfs0003);
    assert!(archive.encryption() == Some(0x78));
}

/// A crafted block naming a page past the archive's page count must not
/// index the page table out of range.
#[test]
fn read_rejects_a_block_naming_a_page_past_the_archive() {
    let buf = archive_with_a_bad_block(Block {
        page: 42,
        offset: 0,
        size: 4,
    });
    let mut archive = Archive::open(buf).unwrap();
    let (_, bad) = archive.walk().into_iter().next().unwrap();

    assert!(matches!(
        archive.read(bad),
        Err(Error::PageOutOfRange { page: 42, pages: 1 })
    ));
}

/// A crafted block whose offset runs past the page must not slice the page
/// out of range.
#[test]
fn read_survives_a_block_whose_offset_runs_past_the_page() {
    let buf = archive_with_a_bad_block(Block {
        page: 0,
        offset: 9_999,
        size: 4,
    });
    let mut archive = Archive::open(buf).unwrap();
    let (_, bad) = archive.walk().into_iter().next().unwrap();

    assert!(archive.read(bad).unwrap().is_empty());
}

#[test]
fn read_clamps_a_block_that_runs_past_the_page_end() {
    let buf = archive_with_a_bad_block(Block {
        page: 0,
        offset: 6,
        size: 100,
    });
    let mut archive = Archive::open(buf).unwrap();
    let (_, bad) = archive.walk().into_iter().next().unwrap();
    assert!(archive.read(bad).unwrap() == b"world!");
}

#[test]
fn read_of_a_directory_is_empty() {
    let sub = {
        let mut out = vec![3u8];
        out.extend_from_slice(b"dir");
        out.push(0);
        out.extend_from_slice(&0i64.to_be_bytes());
        out.extend_from_slice(&(-1i32).to_be_bytes());
        out.extend_from_slice(&0u32.to_be_bytes());
        out
    };
    let mut plain = MAGIC.to_vec();
    plain.extend_from_slice(&1u32.to_be_bytes());
    plain.extend_from_slice(&sub);
    plain.extend_from_slice(&0u32.to_be_bytes());
    let buf = cfs0002_archive(&[], &stored(&plain));
    let mut archive = Archive::open(buf).unwrap();
    let (path, dir) = archive.walk().into_iter().next().unwrap();
    assert!(path == "dir");
    assert!(archive.node(dir).is_dir());
    assert!(archive.read(dir).unwrap().is_empty());
}

#[test]
fn a_file_spanning_pages_reads_in_block_order() {
    let page0 = b"0123456789".to_vec();
    let mut compressed = Vec::new();
    flate2::read::DeflateEncoder::new(&b"abcdefghij"[..], flate2::Compression::default())
        .read_to_end(&mut compressed)
        .unwrap();
    let mut page1 = vec![1u8];
    page1.extend_from_slice(&compressed);
    let blocks = vec![
        Block {
            page: 1,
            offset: 2,
            size: 3,
        },
        Block {
            page: 0,
            offset: 7,
            size: 3,
        },
        Block {
            page: 1,
            offset: 0,
            size: 1,
        },
    ];
    let fsindex = stored(&fsindex_of(&[("mixed", blocks)]));
    let buf = cfs0002_archive(&[(stored(&page0), 10), (page1, 10)], &fsindex);
    let mut archive = Archive::open(buf).unwrap();
    let (_, idx) = archive.walk().into_iter().next().unwrap();
    assert!(archive.read(idx).unwrap() == b"cde789a");
    // A second read comes from the cache and gives the same bytes.
    assert!(archive.read(idx).unwrap() == b"cde789a");
}

#[test]
fn a_page_that_fails_to_decode_reports_its_codec_error() {
    let block = Block {
        page: 0,
        offset: 0,
        size: 3,
    };
    let fsindex = stored(&fsindex_of(&[("broken", vec![block])]));
    let buf = cfs0002_archive(&[(vec![42u8, 1, 2, 3], 3)], &fsindex);
    let mut archive = Archive::open(buf).unwrap();
    let (_, idx) = archive.walk().into_iter().next().unwrap();
    assert!(matches!(archive.read(idx), Err(Error::UnknownCodec { id: 42 })));
    // The failure is not cached: the same error comes back.
    assert!(matches!(archive.read(idx), Err(Error::UnknownCodec { id: 42 })));
}

#[test]
fn open_skips_a_decoy_signature_whose_trailer_does_not_parse() {
    let (mut buf, payload) = one_file_archive();
    // Appended bytes that hold the signature behind a head whose fsindex
    // length reaches past the start of the file: no trailer parses there.
    buf.extend_from_slice(&[0xFFu8; 9]);
    buf.extend_from_slice(&cfs0002::signature());
    buf.extend_from_slice(&[0u8; 3]);
    let mut archive = Archive::open(buf).unwrap();
    assert!(archive.version() == ArchiveVersion::Cfs0002);
    let (_, idx) = archive.walk().into_iter().next().unwrap();
    assert!(archive.read(idx).unwrap() == payload);
}

#[test]
fn open_reports_a_corrupt_fsindex() {
    let fsindex = stored(b"not an fsindex at all");
    let buf = cfs0002_archive(&[], &fsindex);
    assert!(matches!(Archive::open(buf), Err(Error::BadMagic { .. })));
}

#[test]
fn open_reports_an_fsindex_with_an_unknown_codec() {
    let buf = cfs0002_archive(&[], &[9u8, 1, 2, 3]);
    assert!(matches!(Archive::open(buf), Err(Error::UnknownCodec { id: 9 })));
}

#[test]
fn open_with_workers_sizes_the_cache_but_reads_the_same() {
    let (buf, payload) = one_file_archive();
    let mut archive = Archive::open_with_workers(buf, 64).unwrap();
    let (_, idx) = archive.walk().into_iter().next().unwrap();
    assert!(archive.read(idx).unwrap() == payload);
}
