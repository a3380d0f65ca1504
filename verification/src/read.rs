//! Low-level byte access and signature scanning shared by every cookfs format.
//!
//! Neither `CFS0002` nor `CFS0003` has a header at the front of the file:
//! readers locate the archive by scanning backward for a trailer signature and
//! walking each format's own length-prefixed fields outward from there. This
//! module only knows how to read bytes and how to scan for a signature once
//! told what one looks like.
use vstd::prelude::*;

verus! {

/// The magic bytes that open a decompressed fsindex blob, `CFS2.200`,
/// identical across every format this crate reads.
pub open spec fn fsindex_magic() -> Seq<u8> {
    seq![0x43u8, 0x46u8, 0x53u8, 0x32u8, 0x2Eu8, 0x32u8, 0x30u8, 0x30u8]
}

/// Everything that can go wrong reading a cookfs archive.
#[derive(Debug)]
#[allow(inconsistent_fields)]
pub enum Error {
    /// A read past the source's own bounds.
    Io {
        /// Byte offset the read was attempted at.
        offset: u64,
    },
    /// The source cannot report its own length, so scanning cannot start.
    NoLength,
    /// No known cookfs signature parsed as a trailer anywhere in the source.
    NoSignature,
    /// A trailer's length-prefixed fields would place a region before offset 0.
    BadPageTable,
    /// A decompressed fsindex blob did not open with the expected magic.
    BadMagic {
        /// The bytes actually found where the magic was expected.
        magic: Vec<u8>,
    },
    /// The fsindex parser did not consume exactly the bytes it was given.
    Desync {
        /// Bytes consumed by the parser.
        got: usize,
        /// Total length of the fsindex blob.
        len: usize,
    },
    /// A blob's leading id byte does not name any known codec.
    UnknownCodec {
        /// The unrecognised id byte.
        id: u8,
    },
    /// A blob's codec id is known but this build cannot decode it.
    CodecUnavailable {
        /// The wire id of the unavailable codec.
        id: u8,
        /// Human-readable name of the codec, for diagnostics.
        feature: &'static str,
    },
    /// A blob had no bytes at all, so no codec id could be read.
    EmptyBlob,
    /// A codec accepted the id byte but failed to decode the payload.
    Decompress {
        /// Name of the codec that failed.
        codec: &'static str,
    },
    /// A file block names a negative page, offset, or size.
    BadBlock {
        /// Page index the block claims.
        page: i32,
        /// Byte offset within the page.
        offset: i32,
        /// Byte length within the page.
        size: i32,
    },
    /// A file block names a page index past the archive's page count.
    PageOutOfRange {
        /// The requested page index.
        page: usize,
        /// The archive's actual page count.
        pages: usize,
    },
    /// A bounds-checked read ran past the end of its blob.
    Truncated {
        /// Cursor position the read was attempted at.
        pos: usize,
        /// Bytes the read needed.
        need: usize,
        /// Total length of the blob being read.
        len: usize,
    },
}

/// The crate's result type.
pub type Result<T> = core::result::Result<T, Error>;

/// Big-endian value of the four bytes `s[0..4]`.
pub open spec fn be_u32(s: Seq<u8>) -> int {
    s[0] * 0x100_0000 + s[1] * 0x1_0000 + s[2] * 0x100 + s[3]
}

/// Two's-complement reading of the four big-endian bytes `s[0..4]`.
pub open spec fn be_i32(s: Seq<u8>) -> int {
    let u = be_u32(s);
    if u < 0x8000_0000 { u } else { u - 0x1_0000_0000 }
}

/// Big-endian value of the eight bytes `s[0..8]`.
pub open spec fn be_u64(s: Seq<u8>) -> int {
    be_u32(s) * 0x1_0000_0000 + be_u32(s.subrange(4, 8))
}

/// Two's-complement reading of the eight big-endian bytes `s[0..8]`.
pub open spec fn be_i64(s: Seq<u8>) -> int {
    let u = be_u64(s);
    if u < 0x8000_0000_0000_0000 { u } else { u - 0x1_0000_0000_0000_0000 }
}

/// Whether a source of `src_len` bytes can serve `len` bytes at `offset`.
pub open spec fn readable(src_len: int, offset: int, len: int) -> bool {
    len == 0 || offset + len <= src_len
}

/// `positioned_io::ReadAt::read_exact_at` on an in-memory source.
///
/// The crate's implementation for byte slices copies what lies at `offset`
/// and fails with `UnexpectedEof` when the buffer cannot be filled; an empty
/// buffer always succeeds. The contract states exactly that: the buffer keeps
/// its length, the call succeeds iff the range is readable, and on success the
/// buffer holds the source's bytes at `offset`.
#[verifier::external_body]
fn read_exact_at(src: &[u8], offset: u64, buf: &mut Vec<u8>) -> (ok: bool)
    ensures
        final(buf)@.len() == old(buf)@.len(),
        ok == readable(src@.len() as int, offset as int, old(buf)@.len() as int),
        ok ==> final(buf)@ == src@.subrange(offset as int, offset + old(buf)@.len()),
{
    positioned_io::ReadAt::read_exact_at(&src, offset, buf.as_mut_slice()).is_ok()
}

/// `positioned_io::Size::size` on an in-memory source: the crate reports a
/// byte slice's own length, and never fails.
#[verifier::external_body]
fn source_size(src: &[u8]) -> (r: Option<u64>)
    ensures
        r is Some && r->0 == src@.len(),
{
    positioned_io::Size::size(&src).ok().flatten()
}

/// The length of `src`, as the source reports it.
///
/// Returns [`Error::NoLength`] if the source cannot report one.
pub fn length(src: &[u8]) -> (r: Result<u64>)
    ensures
        r matches Ok(l) && l == src@.len(),
{
    match source_size(src) {
        Some(len) => Ok(len),
        None => Err(Error::NoLength),
    }
}

/// A big-endian `u32` read from bytes is a `u32`.
pub proof fn lemma_be_u32_bound(s: Seq<u8>)
    requires
        s.len() >= 4,
    ensures
        0 <= be_u32(s) <= u32::MAX,
{
}

/// Reads exactly `len` bytes at `offset`.
///
/// Returns [`Error::Io`] if the source does not have `len` bytes at `offset`.
pub fn at(src: &[u8], offset: u64, len: usize) -> (r: Result<Vec<u8>>)
    ensures
        match r {
            Ok(v) => readable(src@.len() as int, offset as int, len as int) && v@
                == src@.subrange(offset as int, offset + len),
            Err(e) => !readable(src@.len() as int, offset as int, len as int) && e
                == (Error::Io { offset }),
        },
{
    let mut buf = vec![0u8; len];
    if read_exact_at(src, offset, &mut buf) {
        Ok(buf)
    } else {
        Err(Error::Io { offset })
    }
}

/// Reads a big-endian `u32` starting at `b[at]`.
///
/// Callers must hold four bytes at `at`; use [`Cursor::be32`] for untrusted
/// input.
pub fn be32(b: &[u8], at: usize) -> (r: u32)
    requires
        at + 4 <= b@.len(),
    ensures
        r == be_u32(b@.subrange(at as int, at + 4)),
{
    (b[at] as u32) * 0x100_0000 + (b[at + 1] as u32) * 0x1_0000 + (b[at + 2] as u32) * 0x100 + (
    b[at + 3] as u32)
}

/// How far back each read of the backward scan reaches.
pub const SCAN_WINDOW: u64 = 1_048_576;

/// Where the scan window ending at `end` starts.
pub open spec fn scan_start(end: int) -> int {
    if end > SCAN_WINDOW { end - SCAN_WINDOW } else { 0 }
}

/// One past the last candidate position the window ending at `end` checks,
/// for signatures of `n` bytes in a source of `src_len` bytes: every window
/// position when the window can be read with `n - 1` bytes of look-ahead,
/// else only the positions whose signature fits inside the window.
pub open spec fn window_top(src_len: int, end: int, n: int) -> int {
    if end + n - 1 <= src_len {
        end
    } else if end - (n - 1) > scan_start(end) {
        end - (n - 1)
    } else {
        scan_start(end)
    }
}

/// Whether the backward scan from `end` checks candidate position `p`.
pub open spec fn scanned(src_len: int, end: int, n: int, p: int) -> bool
    decreases end,
{
    if end <= 0 {
        false
    } else {
        (scan_start(end) <= p < window_top(src_len, end, n)) || scanned(
            src_len,
            scan_start(end),
            n,
            p,
        )
    }
}

/// The bytes of each signature.
pub open spec fn sig_bytes(signatures: Seq<&[u8]>) -> Seq<Seq<u8>> {
    signatures.map_values(|s: &[u8]| s@)
}

/// The length of the first signature, which all should share.
pub open spec fn sig_len(signatures: Seq<Seq<u8>>) -> int {
    if signatures.len() == 0 { 0 } else { signatures[0].len() as int }
}

/// Whether signature `j`, of `n` bytes, lies at position `p` of `src`.
pub open spec fn hit(src: Seq<u8>, signatures: Seq<Seq<u8>>, n: int, p: int, j: int) -> bool {
    &&& 0 <= j < signatures.len()
    &&& signatures[j].len() == n
    &&& 0 <= p
    &&& p + n <= src.len()
    &&& src.subrange(p, p + n) == signatures[j]
}

/// The scan from `end` checks every position below `end` whose `n` bytes
/// fit in the source, given the window's look-ahead reaches them.
proof fn lemma_scan_covers_from(src_len: int, end: int, n: int, p: int)
    requires
        1 <= n <= SCAN_WINDOW + 1,
        end == src_len || end + n - 1 <= src_len,
        0 <= p < end,
        p + n <= src_len,
    ensures
        scanned(src_len, end, n, p),
    decreases end,
{
    let start = scan_start(end);
    if p < start {
        lemma_scan_covers_from(src_len, start, n, p);
    }
}

/// For a signature of at most one window plus one byte, the scan from the
/// end of the source checks every position where the signature fits.
pub proof fn lemma_scan_covers(src_len: int, n: int, p: int)
    requires
        1 <= n <= SCAN_WINDOW + 1,
        0 <= p,
        p + n <= src_len,
    ensures
        scanned(src_len, src_len, n, p),
{
    lemma_scan_covers_from(src_len, src_len, n, p);
}

proof fn lemma_scanned_below(src_len: int, end: int, n: int, p: int)
    requires
        n >= 1,
    ensures
        scanned(src_len, end, n, p) ==> 0 <= p < end,
    decreases end,
{
    if end > 0 {
        lemma_scanned_below(src_len, scan_start(end), n, p);
    }
}

/// Whether `sig` equals the `n` bytes of `hay` at `off`.
fn same_bytes(hay: &[u8], off: usize, n: usize, sig: &[u8]) -> (r: bool)
    requires
        off + n <= hay@.len(),
    ensures
        r == (sig@.len() == n && hay@.subrange(off as int, off + n) == sig@),
{
    if sig.len() != n {
        return false;
    }
    let mut k: usize = 0;
    while k < n
        invariant
            k <= n,
            off + n <= hay.len(),
            sig@.len() == n,
            forall|m: int| 0 <= m < k ==> hay@[off + m] == sig@[m],
        decreases n - k,
    {
        if hay[off + k] != sig[k] {
            assert(hay@.subrange(off as int, off + n)[k as int] != sig@[k as int]);
            return false;
        }
        k = k + 1;
    }
    assert(hay@.subrange(off as int, off + n) =~= sig@);
    true
}

/// Scans backward from the end for any of `signatures`, confirmed by `validate`.
///
/// A hit is not necessarily the archive: an installer built around cookfs can
/// append other layers that happen to contain the same bytes. Every candidate
/// is confirmed by `validate`, which should attempt a full trailer parse for
/// whichever format `signatures[idx]` names. Candidates are tried from the
/// rightmost position down, and at one position in the order of
/// `signatures`; all entries should share the first one's length.
/// `validate` is called only where a signature lies, so it need only be
/// callable there.
///
/// Returns [`Error::NoSignature`] if no candidate validates, and
/// [`Error::Io`] if `len` runs past the source.
pub fn find_signature<F: Fn(u64, usize) -> bool>(
    src: &[u8],
    len: u64,
    signatures: &[&[u8]],
    validate: F,
) -> (r: Result<(u64, usize)>)
    requires
        forall|c: u64, i: usize|
            #[trigger] hit(src@, sig_bytes(signatures@), sig_len(sig_bytes(signatures@)), c as int, i as int)
                ==> validate.requires((c, i)),
    ensures
        ({
            let n = sig_len(sig_bytes(signatures@));
            let l = src@.len() as int;
            if n == 0 {
                r == Err::<(u64, usize), Error>(Error::NoSignature)
            } else if len > l {
                r == Err::<(u64, usize), Error>(Error::Io { offset: scan_start(len as int) as u64 })
            } else {
                match r {
                    Ok((c, idx)) => {
                        &&& scanned(l, len as int, n, c as int)
                        &&& hit(src@, sig_bytes(signatures@), n, c as int, idx as int)
                        &&& call_ensures(validate, (c, idx), true)
                        &&& forall|p: int, j: int|
                            #![trigger hit(src@, sig_bytes(signatures@), n, p, j)]
                            scanned(l, len as int, n, p) && hit(src@, sig_bytes(signatures@), n, p, j) && (p
                                > c || (p == c && j < idx)) ==> call_ensures(
                                validate,
                                (p as u64, j as usize),
                                false,
                            )
                    },
                    Err(e) => {
                        &&& e == Error::NoSignature
                        &&& forall|p: int, j: int|
                            #![trigger hit(src@, sig_bytes(signatures@), n, p, j)]
                            scanned(l, len as int, n, p) && hit(src@, sig_bytes(signatures@), n, p, j)
                                ==> call_ensures(validate, (p as u64, j as usize), false)
                    },
                }
            }
        }),
{
    let sig_len = if signatures.len() == 0 {
        0
    } else {
        signatures[0].len()
    };
    if sig_len == 0 {
        return Err(Error::NoSignature);
    }
    let ghost n = sig_len as int;
    let ghost l = src@.len() as int;
    assert(self::sig_len(sig_bytes(signatures@)) == n);
    let mut end = len;
    proof {
        assert forall|p: int, j: int|
            #![trigger hit(src@, sig_bytes(signatures@), n, p, j)]
            scanned(l, len as int, n, p) && p >= end && hit(src@, sig_bytes(signatures@), n, p, j)
                implies call_ensures(validate, (p as u64, j as usize), false) by {
            lemma_scanned_below(l, len as int, n, p);
        }
    }
    while end > 0
        invariant
            n == sig_len > 0,
            l == src@.len(),
            signatures@.len() > 0,
            n == signatures@[0]@.len(),
            forall|c: u64, i: usize|
                #[trigger] hit(src@, sig_bytes(signatures@), n, c as int, i as int) ==> validate.requires((c, i)),
            end <= len,
            end < len ==> len <= l,
            forall|p: int| p < end ==> scanned(l, len as int, n, p) == scanned(l, end as int, n, p),
            forall|p: int, j: int|
                #![trigger hit(src@, sig_bytes(signatures@), n, p, j)]
                scanned(l, len as int, n, p) && p >= end && hit(src@, sig_bytes(signatures@), n, p, j)
                    ==> call_ensures(validate, (p as u64, j as usize), false),
        decreases end,
    {
        let start = end.saturating_sub(SCAN_WINDOW);
        let width = (end - start) as usize;
        assert(start as int == scan_start(end as int));
        let src_len = src.len();
        let full_read = match width.checked_add(sig_len - 1) {
            Some(full) => at(src, start, full),
            None => Err(Error::Io { offset: start }),
        };
        let span = match full_read {
            Ok(s) => {
                assert(s@.len() == width + n - 1 && end + n - 1 <= l);
                s
            },
            Err(_) => match at(src, start, width) {
                Ok(s) => {
                    assert(s@.len() == width && end + n - 1 > l);
                    s
                },
                Err(e) => {
                    assert(end == len && len > l);
                    assert(scan_start(len as int) as u64 == start);
                    return Err(e);
                },
            },
        };
        let count = span.len().saturating_sub(sig_len - 1);
        assert(start + count == window_top(l, end as int, n));
        let mut i = count;
        #[verifier::loop_isolation(false)]
        while i > 0
            invariant
                i <= count,
                forall|p: int, j: int|
                    #![trigger hit(src@, sig_bytes(signatures@), n, p, j)]
                    start + i <= p < start + count && hit(src@, sig_bytes(signatures@), n, p, j)
                        ==> call_ensures(validate, (p as u64, j as usize), false),
            decreases i,
        {
            i = i - 1;
            let candidate = start + i as u64;
            let mut idx: usize = 0;
            #[verifier::loop_isolation(false)]
            while idx < signatures.len()
                invariant
                    idx <= signatures@.len(),
                    candidate == start + i,
                    forall|j: int|
                        #![trigger hit(src@, sig_bytes(signatures@), n, candidate as int, j)]
                        0 <= j < idx && hit(src@, sig_bytes(signatures@), n, candidate as int, j)
                            ==> call_ensures(validate, (candidate, j as usize), false),
                decreases signatures.len() - idx,
            {
                let matched = same_bytes(&span, i, sig_len, signatures[idx]);
                assert(span@.subrange(i as int, i + n) =~= src@.subrange(candidate as int, candidate + n));
                if matched {
                    assert(sig_bytes(signatures@)[idx as int] == signatures@[idx as int]@);
                    assert(hit(src@, sig_bytes(signatures@), n, candidate as int, idx as int));
                    if validate(candidate, idx) {
                        proof {
                            lemma_scanned_below(l, start as int, n, candidate as int);
                            assert forall|p: int, j: int|
                                #![trigger hit(src@, sig_bytes(signatures@), n, p, j)]
                                scanned(l, len as int, n, p) && hit(src@, sig_bytes(signatures@), n, p, j) && (p
                                    > candidate || (p == candidate && j < idx)) implies call_ensures(
                                    validate,
                                    (p as u64, j as usize),
                                    false,
                                ) by {
                                lemma_scanned_below(l, start as int, n, p);
                            }
                        }
                        return Ok((candidate, idx));
                    }
                }
                idx = idx + 1;
            }
        }
        proof {
            assert forall|p: int| p < start implies scanned(l, len as int, n, p) == scanned(
                l,
                start as int,
                n,
                p,
            ) by {
                lemma_scanned_below(l, start as int, n, p);
            }
            assert forall|p: int, j: int|
                #![trigger hit(src@, sig_bytes(signatures@), n, p, j)]
                scanned(l, len as int, n, p) && p >= start && hit(src@, sig_bytes(signatures@), n, p, j)
                    implies call_ensures(validate, (p as u64, j as usize), false) by {
                lemma_scanned_below(l, start as int, n, p);
            }
        }
        end = start;
    }
    Err(Error::NoSignature)
}

/// A bounds-checked cursor over a byte slice.
///
/// Every blob this crate decodes after decompression, the fsindex tree and
/// the CFS0003 pgindex table, can be truncated by a corrupt or crafted
/// archive. A cursor turns an out-of-bounds read into [`Error::Truncated`]
/// instead of a panic.
pub struct Cursor<'a> {
    blob: &'a [u8],
    pos: usize,
}

impl<'a> Cursor<'a> {
    #[verifier::type_invariant]
    spec fn inv(self) -> bool {
        self.pos <= self.blob@.len()
    }

    /// The bytes the cursor reads.
    pub closed spec fn data(self) -> Seq<u8> {
        self.blob@
    }

    /// The cursor's offset into [`Self::data`].
    pub closed spec fn position(self) -> int {
        self.pos as int
    }

    /// Starts a cursor at the front of `blob`.
    pub fn new(blob: &'a [u8]) -> (c: Self)
        ensures
            c.data() == blob@,
            c.position() == 0,
            0 <= c.position() <= c.data().len(),
    {
        Self { blob, pos: 0 }
    }

    /// The cursor's current byte offset into the blob.
    pub fn pos(&self) -> (r: usize)
        ensures
            r == self.position(),
            r <= self.data().len(),
    {
        proof {
            use_type_invariant(self);
        }
        self.pos
    }

    /// Takes and advances past the next `len` bytes.
    ///
    /// Returns [`Error::Truncated`] if fewer than `len` bytes remain; the
    /// cursor then stays where it was.
    pub fn take(&mut self, len: usize) -> (r: Result<&'a [u8]>)
        ensures
            final(self).data() == old(self).data(),
            0 <= final(self).position() <= final(self).data().len(),
            match r {
                Ok(s) => old(self).position() + len <= old(self).data().len() && s@ == old(self).data().subrange(old(self).position(), old(self).position() + len) && final(self).position() == old(self).position() + len,
                Err(e) => old(self).position() + len > old(self).data().len() && final(self).position() == old(self).position() && e == (Error::Truncated {
                    pos: old(self).position() as usize,
                    need: len,
                    len: old(self).data().len() as usize,
                }),
            },
    {
        proof {
            use_type_invariant(&*self);
        }
        let blob_len = self.blob.len();
        if len > blob_len - self.pos {
            return Err(Error::Truncated { pos: self.pos, need: len, len: blob_len });
        }
        let end = self.pos + len;
        let slice = vstd::slice::slice_subrange(self.blob, self.pos, end);
        self.pos = end;
        Ok(slice)
    }

    /// Takes and advances past one byte.
    ///
    /// Returns [`Error::Truncated`] if no bytes remain.
    pub fn u8(&mut self) -> (r: Result<u8>)
        ensures
            final(self).data() == old(self).data(),
            0 <= final(self).position() <= final(self).data().len(),
            match r {
                Ok(v) => old(self).position() + 1 <= old(self).data().len() && v == old(self).data()[old(self).position()] && final(self).position() == old(self).position()
                    + 1,
                Err(e) => old(self).position() + 1 > old(self).data().len() && final(self).position() == old(self).position() && e == (Error::Truncated {
                    pos: old(self).position() as usize,
                    need: 1,
                    len: old(self).data().len() as usize,
                }),
            },
    {
        let s = self.take(1)?;
        Ok(s[0])
    }

    /// Takes and advances past a big-endian `u32`.
    ///
    /// Returns [`Error::Truncated`] if fewer than 4 bytes remain.
    pub fn be32(&mut self) -> (r: Result<u32>)
        ensures
            final(self).data() == old(self).data(),
            0 <= final(self).position() <= final(self).data().len(),
            match r {
                Ok(v) => old(self).position() + 4 <= old(self).data().len() && v == be_u32(
                    old(self).data().subrange(old(self).position(), old(self).position() + 4),
                ) && final(self).position() == old(self).position() + 4,
                Err(e) => old(self).position() + 4 > old(self).data().len() && final(self).position() == old(self).position() && e == (Error::Truncated {
                    pos: old(self).position() as usize,
                    need: 4,
                    len: old(self).data().len() as usize,
                }),
            },
    {
        let s = self.take(4)?;
        Ok(be32(s, 0))
    }

    /// Takes and advances past a big-endian `i32`.
    ///
    /// Returns [`Error::Truncated`] if fewer than 4 bytes remain.
    pub fn be32i(&mut self) -> (r: Result<i32>)
        ensures
            final(self).data() == old(self).data(),
            0 <= final(self).position() <= final(self).data().len(),
            match r {
                Ok(v) => old(self).position() + 4 <= old(self).data().len() && v == be_i32(
                    old(self).data().subrange(old(self).position(), old(self).position() + 4),
                ) && final(self).position() == old(self).position() + 4,
                Err(e) => old(self).position() + 4 > old(self).data().len() && final(self).position() == old(self).position() && e == (Error::Truncated {
                    pos: old(self).position() as usize,
                    need: 4,
                    len: old(self).data().len() as usize,
                }),
            },
    {
        let s = self.take(4)?;
        let u = be32(s, 0);
        if u < 0x8000_0000 {
            Ok(u as i32)
        } else {
            Ok(((u - 0x8000_0000) as i32) + i32::MIN)
        }
    }

    /// Takes and advances past a big-endian `i64`.
    ///
    /// Returns [`Error::Truncated`] if fewer than 8 bytes remain.
    pub fn be64i(&mut self) -> (r: Result<i64>)
        ensures
            final(self).data() == old(self).data(),
            0 <= final(self).position() <= final(self).data().len(),
            match r {
                Ok(v) => old(self).position() + 8 <= old(self).data().len() && v == be_i64(
                    old(self).data().subrange(old(self).position(), old(self).position() + 8),
                ) && final(self).position() == old(self).position() + 8,
                Err(e) => old(self).position() + 8 > old(self).data().len() && final(self).position() == old(self).position() && e == (Error::Truncated {
                    pos: old(self).position() as usize,
                    need: 8,
                    len: old(self).data().len() as usize,
                }),
            },
    {
        let s = self.take(8)?;
        let hi = be32(s, 0) as u64;
        let lo = be32(s, 4) as u64;
        assert(be_u32(s@.subrange(0, 4)) == be_u32(s@));
        let u: u64 = hi * 0x1_0000_0000 + lo;
        if u < 0x8000_0000_0000_0000 {
            Ok(u as i64)
        } else {
            Ok(((u - 0x8000_0000_0000_0000) as i64) + i64::MIN)
        }
    }
}

} // verus!
