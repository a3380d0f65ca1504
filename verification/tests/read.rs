use cookfs::read::{at, be32, find_signature, length, Cursor};
use cookfs::Error;

#[test]
fn be32_round_trips_known_values() {
    for &v in &[0u32, 1, u32::MAX, 0x1234_5678] {
        assert!(be32(&v.to_be_bytes(), 0) == v);
    }
}

#[test]
fn be32_reads_at_a_nonzero_offset() {
    let mut buf = vec![0xAAu8; 3];
    buf.extend_from_slice(&42u32.to_be_bytes());
    assert!(be32(&buf, 3) == 42);
}

#[test]
fn at_reads_exact_bytes_at_offset() {
    let buf: &[u8] = b"hello world";
    assert!(at(buf, 6, 5).unwrap() == b"world");
}

#[test]
fn at_errors_when_not_enough_bytes_remain() {
    let buf: &[u8] = b"short";
    assert!(matches!(at(buf, 0, 100), Err(Error::Io { .. })));
}

const SIG_A: &[u8] = b"AAAAAAA";
const SIG_B: &[u8] = b"BBBBBBB";

#[test]
fn find_signature_returns_the_rightmost_candidate_that_validates() {
    let mut buf = vec![0xFFu8; 20];
    buf.extend_from_slice(SIG_A); // decoy: bytes match, validate rejects it
    buf.extend_from_slice(&[0xAAu8; 10]);
    let real_offset = buf.len() as u64;
    buf.extend_from_slice(SIG_B); // the real trailer

    let (found, which) = find_signature(
        buf.as_slice(),
        buf.len() as u64,
        &[SIG_A, SIG_B],
        |_candidate, idx| idx == 1,
    )
    .unwrap();
    assert!(found == real_offset);
    assert!(which == 1);
}

#[test]
fn find_signature_errors_when_no_bytes_match() {
    let buf = vec![0u8; 64];
    assert!(matches!(
        find_signature(buf.as_slice(), buf.len() as u64, &[SIG_A], |_, _| true),
        Err(Error::NoSignature)
    ));
}

#[test]
fn find_signature_errors_when_nothing_validates() {
    let mut buf = vec![0u8; 20];
    buf.extend_from_slice(SIG_A);
    assert!(matches!(
        find_signature(buf.as_slice(), buf.len() as u64, &[SIG_A], |_, _| false),
        Err(Error::NoSignature)
    ));
}

#[test]
fn cursor_reads_typed_values_in_sequence() {
    let mut blob = vec![7u8];
    blob.extend_from_slice(&42u32.to_be_bytes());
    blob.extend_from_slice(&(-1i32).to_be_bytes());
    blob.extend_from_slice(&(-2i64).to_be_bytes());
    blob.extend_from_slice(b"tail");

    let mut cursor = Cursor::new(&blob);
    assert!(cursor.u8().unwrap() == 7);
    assert!(cursor.be32().unwrap() == 42);
    assert!(cursor.be32i().unwrap() == -1);
    assert!(cursor.be64i().unwrap() == -2);
    assert!(cursor.take(4).unwrap() == b"tail");
    assert!(cursor.pos() == blob.len());
}

#[test]
fn cursor_errors_instead_of_panicking_on_a_truncated_read() {
    let blob = vec![0u8; 2];
    let mut cursor = Cursor::new(&blob);
    assert!(matches!(
        cursor.be32(),
        Err(Error::Truncated { pos: 0, need: 4, len: 2 })
    ));
}

#[test]
fn a_failed_take_leaves_the_cursor_where_it_was() {
    let blob = vec![1u8, 2, 3];
    let mut cursor = Cursor::new(&blob);
    assert!(cursor.u8().unwrap() == 1);
    assert!(matches!(
        cursor.take(5),
        Err(Error::Truncated { pos: 1, need: 5, len: 3 })
    ));
    assert!(cursor.pos() == 1);
    assert!(cursor.take(2).unwrap() == [2u8, 3]);
}

#[test]
fn cursor_reads_the_extremes_of_signed_values() {
    let mut blob = Vec::new();
    blob.extend_from_slice(&i32::MIN.to_be_bytes());
    blob.extend_from_slice(&i64::MIN.to_be_bytes());
    blob.extend_from_slice(&i64::MAX.to_be_bytes());
    let mut cursor = Cursor::new(&blob);
    assert!(cursor.be32i().unwrap() == i32::MIN);
    assert!(cursor.be64i().unwrap() == i64::MIN);
    assert!(cursor.be64i().unwrap() == i64::MAX);
}

#[test]
fn at_reads_nothing_at_the_very_end() {
    let buf: &[u8] = b"abc";
    assert!(at(buf, 3, 0).unwrap().is_empty());
    assert!(matches!(at(buf, 2, 2), Err(Error::Io { offset: 2 })));
}

#[test]
fn length_reports_the_sources_size() {
    assert!(length(b"twelve bytes").unwrap() == 12);
    assert!(length(&[]).unwrap() == 0);
}

#[test]
fn find_signature_prefers_the_first_signature_at_one_position() {
    let mut buf = vec![0u8; 4];
    buf.extend_from_slice(SIG_A);
    let (found, which) =
        find_signature(buf.as_slice(), buf.len() as u64, &[SIG_A, SIG_A], |_, _| true).unwrap();
    assert!(found == 4);
    assert!(which == 0);
}

#[test]
fn find_signature_reports_a_length_past_the_source() {
    let buf = vec![0u8; 8];
    assert!(matches!(
        find_signature(buf.as_slice(), 100, &[SIG_A], |_, _| true),
        Err(Error::Io { offset: 0 })
    ));
}

#[test]
fn find_signature_scans_across_window_boundaries() {
    // A signature straddling the boundary between two backward windows.
    let window = 1_048_576usize;
    let mut buf = vec![0u8; window + 64];
    let at_pos = 64 - 3;
    buf[at_pos..at_pos + 7].copy_from_slice(SIG_B);
    let (found, which) =
        find_signature(buf.as_slice(), buf.len() as u64, &[SIG_B], |_, _| true).unwrap();
    assert!(found == at_pos as u64);
    assert!(which == 0);
}

#[test]
fn find_signature_validates_only_where_a_signature_lies() {
    let mut buf = vec![0x11u8; 30];
    buf.extend_from_slice(SIG_A);
    buf.extend_from_slice(&[0x22u8; 5]);
    buf.extend_from_slice(SIG_B);
    buf.extend_from_slice(&[0x33u8; 4]);
    let copy = buf.clone();
    let sigs: [&[u8]; 2] = [SIG_A, SIG_B];
    let result = find_signature(buf.as_slice(), buf.len() as u64, &sigs, |candidate, idx| {
        let at = candidate as usize;
        assert!(&copy[at..at + 7] == sigs[idx]);
        false
    });
    assert!(matches!(result, Err(Error::NoSignature)));
}
