//! `CFS0003` trailer, pgindex, and page-table parsing.
//!
//! `CFS0003` moves per-page compression out of each page blob and into a
//! separate pgindex table, itself a compressed blob whose own compression id
//! and size live in the trailer. The trailer is fixed-size (55 bytes, plus
//! the 7-byte signature): unlike `CFS0002`, nothing about its own shape
//! depends on the page count.
use vstd::prelude::*;

use crate::codec::{codec_of, decode_with, decoded_with, Codec};
use crate::index::Scan;
use crate::page::{same_layout, Layout, LayoutView, PageCodec, PageEntry, PageTable};
use crate::read::{at, be_u32, lemma_be_u32_bound, readable, Cursor, Error, Result};

verus! {

/// The seven bytes that mark the end of a `CFS0003` trailer: "CFS0003".
pub open spec fn signature_bytes() -> Seq<u8> {
    seq![0x43u8, 0x46u8, 0x53u8, 0x30u8, 0x30u8, 0x30u8, 0x33u8]
}

/// The seven bytes that mark the end of a `CFS0003` trailer.
pub fn signature() -> (r: Vec<u8>)
    ensures
        r@ == signature_bytes(),
{
    let r = vec![0x43u8, 0x46u8, 0x53u8, 0x30u8, 0x30u8, 0x30u8, 0x33u8];
    assert(r@ =~= signature_bytes());
    r
}

/// Bytes of fixed trailer fields preceding the signature (55 + 7 = 62 total).
pub const TRAILER_LEN: u64 = 55;

/// The fixed fields behind a `CFS0003` signature, before the pgindex and
/// fsindex blobs are read.
#[derive(Debug)]
pub struct Trailer {
    /// Archive-wide compression id. Not currently used; every page and the
    /// fsindex name their own codec.
    pub base_compression: u8,
    /// Archive-wide compression level.
    pub base_compression_level: u8,
    /// Its meaning is unconfirmed; both known samples read `0x78`, and the
    /// Tcl reader does not gate behavior on this value.
    pub encryption: u8,
    /// Compression id of the pgindex blob.
    pub pgindex_compression: u8,
    /// Compression level of the pgindex blob.
    pub pgindex_compression_level: u8,
    /// MD5 digest of the decompressed pgindex blob.
    pub pgindex_md5: [u8; 16],
    /// Compressed length of the pgindex blob.
    pub pgindex_size_compressed: u32,
    /// Decompressed length of the pgindex blob.
    pub pgindex_size_uncompressed: u32,
    /// Compression id of the fsindex blob.
    pub fsindex_compression: u8,
    /// Compression level of the fsindex blob.
    pub fsindex_compression_level: u8,
    /// MD5 digest of the decompressed fsindex blob.
    pub fsindex_md5: [u8; 16],
    /// Compressed length of the fsindex blob.
    pub fsindex_size_compressed: u32,
    /// Decompressed length of the fsindex blob.
    pub fsindex_size_uncompressed: u32,
}

/// Whether `t` holds the fields that the 55 trailer bytes `b` encode, in
/// order: five single bytes (base compression and level, encryption, pgindex
/// compression and level), the pgindex MD5 and its compressed and
/// decompressed sizes, then the fsindex compression, level, MD5 and sizes;
/// sizes are big-endian.
pub open spec fn trailer_fields(t: Trailer, b: Seq<u8>) -> bool {
    &&& t.base_compression == b[0]
    &&& t.base_compression_level == b[1]
    &&& t.encryption == b[2]
    &&& t.pgindex_compression == b[3]
    &&& t.pgindex_compression_level == b[4]
    &&& t.pgindex_md5@ == b.subrange(5, 21)
    &&& t.pgindex_size_compressed == be_u32(b.subrange(21, 25))
    &&& t.pgindex_size_uncompressed == be_u32(b.subrange(25, 29))
    &&& t.fsindex_compression == b[29]
    &&& t.fsindex_compression_level == b[30]
    &&& t.fsindex_md5@ == b.subrange(31, 47)
    &&& t.fsindex_size_compressed == be_u32(b.subrange(47, 51))
    &&& t.fsindex_size_uncompressed == be_u32(b.subrange(51, 55))
}

/// Copies a 16-byte digest out of a slice.
fn digest(s: &[u8]) -> (r: [u8; 16])
    requires
        s@.len() == 16,
    ensures
        r@ == s@,
{
    let mut r = [0u8; 16];
    let mut k: usize = 0;
    while k < 16
        invariant
            k <= 16,
            s@.len() == 16,
            r@.len() == 16,
            forall|m: int| 0 <= m < k ==> r@[m] == s@[m],
        decreases 16 - k,
    {
        r[k] = s[k];
        k = k + 1;
    }
    assert(r@ =~= s@);
    r
}

impl Trailer {
    /// Parses the fixed trailer fields behind a `CFS0003` signature at `sig_at`.
    ///
    /// Returns [`Error::BadPageTable`] if `sig_at` is too close to the start
    /// of the source to hold a full trailer, or [`Error::Io`] if a read runs
    /// past the source's bounds.
    pub fn parse(src: &[u8], sig_at: u64) -> (r: Result<Self>)
        ensures
            sig_at < TRAILER_LEN ==> r == Err::<Trailer, Error>(Error::BadPageTable),
            sig_at >= TRAILER_LEN && !readable(src@.len() as int, sig_at - TRAILER_LEN, TRAILER_LEN as int)
                ==> r == Err::<Trailer, Error>(Error::Io { offset: (sig_at - TRAILER_LEN) as u64 }),
            sig_at >= TRAILER_LEN && readable(src@.len() as int, sig_at - TRAILER_LEN, TRAILER_LEN as int)
                ==> (r matches Ok(t) && trailer_fields(
                t,
                src@.subrange(sig_at - TRAILER_LEN, sig_at as int),
            )),
    {
        let trailer_at = match sig_at.checked_sub(TRAILER_LEN) {
            Some(v) => v,
            None => return Err(Error::BadPageTable),
        };
        let buf = at(src, trailer_at, TRAILER_LEN as usize)?;
        let ghost b = buf@;
        let mut c = Cursor::new(buf.as_slice());
        let base_compression = c.u8()?;
        let base_compression_level = c.u8()?;
        let encryption = c.u8()?;
        let pgindex_compression = c.u8()?;
        let pgindex_compression_level = c.u8()?;
        let pgindex_md5 = digest(c.take(16)?);
        let pgindex_size_compressed = c.be32()?;
        let pgindex_size_uncompressed = c.be32()?;
        let fsindex_compression = c.u8()?;
        let fsindex_compression_level = c.u8()?;
        let fsindex_md5 = digest(c.take(16)?);
        let fsindex_size_compressed = c.be32()?;
        let fsindex_size_uncompressed = c.be32()?;
        Ok(Self {
            base_compression,
            base_compression_level,
            encryption,
            pgindex_compression,
            pgindex_compression_level,
            pgindex_md5,
            pgindex_size_compressed,
            pgindex_size_uncompressed,
            fsindex_compression,
            fsindex_compression_level,
            fsindex_md5,
            fsindex_size_compressed,
            fsindex_size_uncompressed,
        })
    }
}

/// Per-page codec ids and sizes decoded from a `CFS0003` pgindex blob.
#[derive(Debug)]
pub struct PgIndex {
    /// Per-page compression id, in page order.
    pub compr: Vec<u8>,
    /// Per-page compressed length, in page order.
    pub size_compressed: Vec<u32>,
    /// Per-page decompressed length, in page order.
    pub size_uncompressed: Vec<u32>,
}

/// The abstract value of a [`PgIndex`].
pub struct PgIndexView {
    pub compr: Seq<u8>,
    pub size_compressed: Seq<u32>,
    pub size_uncompressed: Seq<u32>,
}

impl View for PgIndex {
    type V = PgIndexView;

    open spec fn view(&self) -> PgIndexView {
        PgIndexView {
            compr: self.compr@,
            size_compressed: self.size_compressed@,
            size_uncompressed: self.size_uncompressed@,
        }
    }
}

/// `n` big-endian `u32`s read from `p` on.
pub open spec fn be32s_at(blob: Seq<u8>, p: int, n: int) -> Scan<Seq<u32>>
    decreases n,
{
    if n <= 0 {
        Scan::Done(Seq::empty())
    } else if p + 4 > blob.len() {
        Scan::Short { pos: p, need: 4 }
    } else {
        match be32s_at(blob, p + 4, n - 1) {
            Scan::Done(rest) => Scan::Done(seq![be_u32(blob.subrange(p, p + 4)) as u32] + rest),
            Scan::Short { pos, need } => Scan::Short { pos, need },
        }
    }
}

/// The pgindex grammar: a big-endian `u32` page count `n`, then `n`
/// compression ids, `n` compression levels and `n` encryption flags (a byte
/// each), `n` compressed and `n` decompressed sizes (big-endian `u32`s), and
/// `n` 16-byte digests. Bytes past the digests are ignored.
pub open spec fn pgindex_grammar(blob: Seq<u8>) -> Scan<PgIndexView> {
    if 4 > blob.len() {
        Scan::Short { pos: 0, need: 4 }
    } else {
        let n = be_u32(blob.subrange(0, 4));
        if 4 + n > blob.len() {
            Scan::Short { pos: 4, need: n }
        } else if 4 + 2 * n > blob.len() {
            Scan::Short { pos: 4 + n, need: n }
        } else if 4 + 3 * n > blob.len() {
            Scan::Short { pos: 4 + 2 * n, need: n }
        } else {
            match be32s_at(blob, 4 + 3 * n, n) {
                Scan::Short { pos, need } => Scan::Short { pos, need },
                Scan::Done(sc) => match be32s_at(blob, 4 + 7 * n, n) {
                    Scan::Short { pos, need } => Scan::Short { pos, need },
                    Scan::Done(su) => if 4 + 11 * n + 16 * n > blob.len() {
                        Scan::Short {
                            pos: 4 + 11 * n,
                            need: if 16 * n <= usize::MAX { 16 * n } else { usize::MAX as int },
                        }
                    } else {
                        Scan::Done(
                            PgIndexView {
                                compr: blob.subrange(4, 4 + n),
                                size_compressed: sc,
                                size_uncompressed: su,
                            },
                        )
                    },
                },
            }
        }
    }
}

proof fn lemma_be32s_len(blob: Seq<u8>, p: int, n: int)
    ensures
        be32s_at(blob, p, n) matches Scan::Done(v) ==> v.len() == if n < 0 { 0 } else { n },
    decreases n,
{
    if n > 0 {
        lemma_be32s_len(blob, p + 4, n - 1);
    }
}

/// A parsed pgindex holds one id and two sizes per page, and at most
/// `u32::MAX` pages.
pub proof fn lemma_pgindex_lengths(blob: Seq<u8>)
    ensures
        pgindex_grammar(blob) matches Scan::Done(pg) ==> {
            &&& pg.compr.len() == pg.size_compressed.len()
            &&& pg.compr.len() == pg.size_uncompressed.len()
            &&& pg.compr.len() <= u32::MAX
        },
{
    if blob.len() >= 4 {
        let n = be_u32(blob.subrange(0, 4));
        lemma_be32s_len(blob, 4 + 3 * n, n);
        lemma_be32s_len(blob, 4 + 7 * n, n);
        let s = blob.subrange(0, 4);
        assert(0 <= s[0] <= 255 && 0 <= s[1] <= 255 && 0 <= s[2] <= 255 && 0 <= s[3] <= 255);
    }
}

/// Reads `n` big-endian `u32`s at the cursor.
fn read_be32s(c: &mut Cursor<'_>, n: usize) -> (r: Result<Vec<u32>>)
    requires
        old(c).position() <= old(c).data().len(),
    ensures
        final(c).data() == old(c).data(),
        final(c).position() <= final(c).data().len(),
        match r {
            Ok(v) => be32s_at(old(c).data(), old(c).position(), n as int) == Scan::Done(v@)
                && final(c).position() == old(c).position() + 4 * n,
            Err(e) => be32s_at(old(c).data(), old(c).position(), n as int) matches Scan::Short {
                pos,
                need,
            } && e == (Error::Truncated {
                pos: pos as usize,
                need: need as usize,
                len: old(c).data().len() as usize,
            }),
        },
{
    let ghost blob = c.data();
    let ghost p0 = c.position();
    let mut v: Vec<u32> = Vec::with_capacity(n);
    let mut k: usize = 0;
    proof {
        match be32s_at(blob, p0, n as int) {
            Scan::Done(rest) => {
                assert(v@ + rest =~= rest);
            },
            Scan::Short { .. } => {},
        }
    }
    while k < n
        invariant
            k <= n,
            c.data() == blob,
            blob == old(c).data(),
            p0 == old(c).position(),
            c.position() <= blob.len(),
            c.position() == p0 + 4 * k,
            v@.len() == k,
            match be32s_at(blob, c.position(), n - k) {
                Scan::Done(rest) => be32s_at(blob, p0, n as int) == Scan::Done(v@ + rest),
                Scan::Short { pos, need } => be32s_at(blob, p0, n as int) == Scan::Short::<
                    Seq<u32>,
                > { pos, need },
            },
        decreases n - k,
    {
        let ghost q = c.position();
        let x = c.be32()?;
        proof {
            assert(v@.push(x) =~= v@ + seq![x]);
            match be32s_at(blob, q + 4, n - k - 1) {
                Scan::Done(rest) => {
                    assert(v@ + (seq![x] + rest) =~= v@.push(x) + rest);
                },
                Scan::Short { .. } => {},
            }
        }
        v.push(x);
        k = k + 1;
    }
    assert(v@ + Seq::<u32>::empty() =~= v@);
    Ok(v)
}

impl PgIndex {
    /// Parses a decompressed pgindex blob's page arrays.
    ///
    /// Returns [`Error::Truncated`] if the blob is shorter than its own
    /// declared page count requires.
    pub fn parse(blob: &[u8]) -> (r: Result<Self>)
        ensures
            match r {
                Ok(p) => pgindex_grammar(blob@) == Scan::Done(p@),
                Err(e) => pgindex_grammar(blob@) matches Scan::Short { pos, need } && e == (
                Error::Truncated {
                    pos: pos as usize,
                    need: need as usize,
                    len: blob@.len() as usize,
                }),
            },
    {
        let mut c = Cursor::new(blob);
        let page_count = c.be32()? as usize;
        let compr = vstd::slice::slice_to_vec(c.take(page_count)?);
        c.take(page_count)?;  // per-page compression level, unused
        c.take(page_count)?;  // per-page encryption flag, unused
        let size_compressed = read_be32s(&mut c, page_count)?;
        let size_uncompressed = read_be32s(&mut c, page_count)?;
        let md5_len = match page_count.checked_mul(16) {
            Some(v) => v,
            None => return Err(Error::Truncated { pos: c.pos(), need: usize::MAX, len: blob.len() }),
        };
        c.take(md5_len)?;  // per-page md5, unused
        Ok(Self { compr, size_compressed, size_uncompressed })
    }
}

/// The first id in `compr` that names no codec, if any.
pub open spec fn first_unknown(compr: Seq<u8>) -> Option<u8>
    decreases compr.len(),
{
    if compr.len() == 0 {
        None
    } else if codec_of(compr[0]) is None {
        Some(compr[0])
    } else {
        first_unknown(compr.drop_first())
    }
}

/// The first `k` sizes of `sizes`, summed.
pub open spec fn prefix_total(sizes: Seq<u32>, k: int) -> int
    decreases k,
{
    if k <= 0 {
        0
    } else {
        prefix_total(sizes, k - 1) + sizes[k - 1]
    }
}

proof fn lemma_prefix_total_mono(sizes: Seq<u32>, j: int, k: int)
    requires
        0 <= j <= k <= sizes.len(),
    ensures
        0 <= prefix_total(sizes, j) <= prefix_total(sizes, k) <= k * 0xFFFF_FFFF,
    decreases k,
{
    if k > 0 {
        if j < k {
            lemma_prefix_total_mono(sizes, j, k - 1);
        } else {
            lemma_prefix_total_mono(sizes, j - 1, k - 1);
        }
    }
}

/// The page table behind a `CFS0003` signature at `sig_at`.
///
/// Walking outward from the 55 trailer bytes come the fsindex blob, the
/// pgindex blob (compressed with the codec the trailer names) and the
/// pages, back to back; the decoded pgindex names every page's codec and
/// sizes.
pub open spec fn layout(src: Seq<u8>, sig_at: int) -> core::result::Result<LayoutView, Error> {
    if sig_at < TRAILER_LEN {
        Err(Error::BadPageTable)
    } else if !readable(src.len() as int, sig_at - TRAILER_LEN, TRAILER_LEN as int) {
        Err(Error::Io { offset: (sig_at - TRAILER_LEN) as u64 })
    } else {
        let trailer_at = sig_at - TRAILER_LEN;
        let b = src.subrange(trailer_at, sig_at);
        let pg_c = be_u32(b.subrange(21, 25));
        let pg_u = be_u32(b.subrange(25, 29));
        let fs_c = be_u32(b.subrange(47, 51));
        let fs_u = be_u32(b.subrange(51, 55));
        let fsindex_at = trailer_at - fs_c;
        let pgindex_at = fsindex_at - pg_c;
        if fsindex_at < 0 || pgindex_at < 0 {
            Err(Error::BadPageTable)
        } else {
            match codec_of(b[3]) {
                None => Err(Error::UnknownCodec { id: b[3] }),
                Some(pg_codec) => match decoded_with(
                    pg_codec,
                    src.subrange(pgindex_at, fsindex_at),
                    pg_u as nat,
                ) {
                    Err(e) => Err(e),
                    Ok(plain) => match pgindex_grammar(plain) {
                        Scan::Short { pos, need } => Err(
                            Error::Truncated {
                                pos: pos as usize,
                                need: need as usize,
                                len: plain.len() as usize,
                            },
                        ),
                        Scan::Done(pg) => {
                            let n = pg.compr.len();
                            let pages_at = pgindex_at - prefix_total(pg.size_compressed, n as int);
                            if pages_at < 0 {
                                Err(Error::BadPageTable)
                            } else if first_unknown(pg.compr) is Some {
                                Err(Error::UnknownCodec { id: first_unknown(pg.compr)->0 })
                            } else if codec_of(b[29]) is None {
                                Err(Error::UnknownCodec { id: b[29] })
                            } else {
                                Ok(
                                    LayoutView {
                                        entries: Seq::new(
                                            n,
                                            |i: int|
                                                PageEntry {
                                                    offset: (pages_at + prefix_total(
                                                        pg.size_compressed,
                                                        i,
                                                    )) as u64,
                                                    compressed_len: pg.size_compressed[i],
                                                    uncompressed_len: pg.size_uncompressed[i],
                                                    codec: PageCodec::External(
                                                        codec_of(pg.compr[i])->0,
                                                    ),
                                                },
                                        ),
                                        fsindex_at: fsindex_at as u64,
                                        fsindex_len: fs_c as usize,
                                        fsindex_uncompressed_len: Some(fs_u as u32),
                                        fsindex_codec: PageCodec::External(codec_of(b[29])->0),
                                        encryption: Some(b[2]),
                                    },
                                )
                            }
                        },
                    },
                },
            }
        }
    }
}

/// Parses the trailer, pgindex, and page table behind a `CFS0003` signature.
///
/// Unlike [`Trailer::parse`], this decompresses the pgindex blob, so it
/// should only run once a candidate signature is already confirmed.
///
/// Returns [`Error::BadPageTable`] if any length-prefixed field would place a
/// region before offset 0, [`Error::UnknownCodec`] if a page or the pgindex
/// itself names an unrecognised codec id, and any error the pgindex codec's
/// decoder can produce.
pub fn parse(src: &[u8], sig_at: u64) -> (r: Result<Layout>)
    ensures
        same_layout(r, layout(src@, sig_at as int)),
{
    let trailer = Trailer::parse(src, sig_at)?;
    let ghost b = src@.subrange(sig_at - TRAILER_LEN, sig_at as int);
    let trailer_at = match sig_at.checked_sub(TRAILER_LEN) {
        Some(v) => v,
        None => return Err(Error::BadPageTable),
    };
    let fsindex_at = match trailer_at.checked_sub(trailer.fsindex_size_compressed as u64) {
        Some(v) => v,
        None => return Err(Error::BadPageTable),
    };
    let pgindex_at = match fsindex_at.checked_sub(trailer.pgindex_size_compressed as u64) {
        Some(v) => v,
        None => return Err(Error::BadPageTable),
    };
    let src_len = src.len();
    let pgindex_raw = at(src, pgindex_at, trailer.pgindex_size_compressed as usize)?;
    assert(pgindex_raw@ =~= src@.subrange(pgindex_at as int, fsindex_at as int));
    let pgindex_codec = Codec::from_id(trailer.pgindex_compression)?;
    let pgindex_plain = decode_with(
        pgindex_codec,
        pgindex_raw.as_slice(),
        trailer.pgindex_size_uncompressed as usize,
    )?;
    let pgindex = PgIndex::parse(pgindex_plain.as_slice())?;
    let ghost pg = pgindex@;
    proof {
        lemma_pgindex_lengths(pgindex_plain@);
    }
    let n = pgindex.compr.len();

    let mut total_compressed: u64 = 0;
    let mut i: usize = 0;
    while i < n
        invariant
            i <= n == pg.compr.len() == pg.size_compressed.len(),
            n <= 0xFFFF_FFFF,
            pg == pgindex@,
            total_compressed == prefix_total(pg.size_compressed, i as int),
        decreases n - i,
    {
        proof {
            lemma_prefix_total_mono(pg.size_compressed, i as int, i + 1);
            assert((i + 1) * 0xFFFF_FFFF <= 0xFFFF_FFFF * 0xFFFF_FFFF) by (nonlinear_arith)
                requires
                    i + 1 <= 0xFFFF_FFFF,
            ;
        }
        total_compressed = total_compressed + pgindex.size_compressed[i] as u64;
        i = i + 1;
    }
    let pages_at = match pgindex_at.checked_sub(total_compressed) {
        Some(v) => v,
        None => return Err(Error::BadPageTable),
    };

    let mut offset = pages_at;
    let mut entries: Vec<PageEntry> = Vec::with_capacity(n);
    let mut i: usize = 0;
    assert(pg.compr.skip(0) =~= pg.compr);
    #[verifier::loop_isolation(false)]
    while i < n
        invariant
            i <= n == pg.compr.len() == pg.size_compressed.len() == pg.size_uncompressed.len(),
            pg == pgindex@,
            pages_at + prefix_total(pg.size_compressed, n as int) == pgindex_at,
            offset == pages_at + prefix_total(pg.size_compressed, i as int),
            entries@.len() == i,
            first_unknown(pg.compr) == first_unknown(pg.compr.skip(i as int)),
            forall|k: int|
                0 <= k < i ==> #[trigger] entries@[k] == (PageEntry {
                    offset: (pages_at + prefix_total(pg.size_compressed, k)) as u64,
                    compressed_len: pg.size_compressed[k],
                    uncompressed_len: pg.size_uncompressed[k],
                    codec: PageCodec::External(codec_of(pg.compr[k])->0),
                }),
        decreases n - i,
    {
        proof {
            lemma_prefix_total_mono(pg.size_compressed, i + 1, n as int);
            assert(pg.compr.skip(i as int).drop_first() =~= pg.compr.skip(i + 1));
            assert(pg.compr.skip(i as int)[0] == pg.compr[i as int]);
        }
        let codec = Codec::from_id(pgindex.compr[i])?;
        entries.push(
            PageEntry {
                offset,
                compressed_len: pgindex.size_compressed[i],
                uncompressed_len: pgindex.size_uncompressed[i],
                codec: PageCodec::External(codec),
            },
        );
        offset = offset + pgindex.size_compressed[i] as u64;
        i = i + 1;
    }
    assert(pg.compr.skip(n as int) =~= Seq::<u8>::empty());
    let fsindex_codec = Codec::from_id(trailer.fsindex_compression)?;
    let r = Layout {
        pages: PageTable { entries },
        fsindex_at,
        fsindex_len: trailer.fsindex_size_compressed as usize,
        fsindex_uncompressed_len: Some(trailer.fsindex_size_uncompressed),
        fsindex_codec: PageCodec::External(fsindex_codec),
        encryption: Some(trailer.encryption),
    };
    proof {
        assert(pgindex_raw@ =~= src@.subrange(pgindex_at as int, fsindex_at as int));
        assert(r@.entries =~= layout(src@, sig_at as int)->Ok_0.entries);
    }
    Ok(r)
}

/// The pages of a parsed `CFS0003` layout lie back to back: each begins
/// where the one before it ends.
pub proof fn lemma_pages_back_to_back(src: Seq<u8>, sig_at: int, i: int)
    requires
        src.len() <= u64::MAX,
        layout(src, sig_at) is Ok,
        0 <= i,
        i + 1 < layout(src, sig_at)->Ok_0.entries.len(),
    ensures
        ({
            let e = layout(src, sig_at)->Ok_0.entries;
            e[i + 1].offset == e[i].offset + e[i].compressed_len
        }),
{
    let trailer_at = sig_at - TRAILER_LEN;
    let b = src.subrange(trailer_at, sig_at);
    let fsindex_at = trailer_at - be_u32(b.subrange(47, 51));
    let pgindex_at = fsindex_at - be_u32(b.subrange(21, 25));
    let pg_codec = codec_of(b[3])->0;
    let plain = decoded_with(pg_codec, src.subrange(pgindex_at, fsindex_at), be_u32(b.subrange(25, 29)) as nat)->Ok_0;
    let pg = pgindex_grammar(plain)->Done_0;
    let n = pg.compr.len() as int;
    let sc = pg.size_compressed;
    let pages_at = pgindex_at - prefix_total(sc, n);
    lemma_pgindex_lengths(plain);
    lemma_prefix_total_mono(sc, i + 1, n);
    lemma_prefix_total_mono(sc, i, i + 1);
    assert(0 <= pages_at && pgindex_at <= src.len());
    let e = layout(src, sig_at)->Ok_0.entries;
    assert(e[i].offset == (pages_at + prefix_total(sc, i)) as u64);
    assert(e[i + 1].offset == (pages_at + prefix_total(sc, i + 1)) as u64);
    assert(e[i].compressed_len == sc[i]);
}

/// Where a parsed `CFS0003` layout places its regions, in terms of the 55
/// trailer bytes `b` before the signature: the fsindex blob of `b`'s
/// compressed fsindex size lies just before the trailer, its declared
/// decompressed size is `b`'s fsindex one, the encryption byte is `b[2]`,
/// and the pages end exactly where the pgindex blob (of `b`'s compressed
/// pgindex size) begins, so every offset counts from the start of the
/// source, whatever lies before the archive.
pub proof fn lemma_regions(src: Seq<u8>, sig_at: int)
    requires
        src.len() <= u64::MAX,
        layout(src, sig_at) is Ok,
    ensures
        ({
            let l = layout(src, sig_at)->Ok_0;
            let b = src.subrange(sig_at - TRAILER_LEN, sig_at);
            let fs_c = be_u32(b.subrange(47, 51));
            let pg_c = be_u32(b.subrange(21, 25));
            let n = l.entries.len() as int;
            &&& l.fsindex_len == fs_c
            &&& l.fsindex_at == sig_at - TRAILER_LEN - fs_c
            &&& l.fsindex_uncompressed_len == Some(be_u32(b.subrange(51, 55)) as u32)
            &&& l.encryption == Some(b[2])
            &&& n > 0 ==> l.entries[n - 1].offset + l.entries[n - 1].compressed_len == sig_at
                - TRAILER_LEN - fs_c - pg_c
        }),
{
    let trailer_at = sig_at - TRAILER_LEN;
    let b = src.subrange(trailer_at, sig_at);
    let fsindex_at = trailer_at - be_u32(b.subrange(47, 51));
    let pgindex_at = fsindex_at - be_u32(b.subrange(21, 25));
    let pg_codec = codec_of(b[3])->0;
    let plain = decoded_with(pg_codec, src.subrange(pgindex_at, fsindex_at), be_u32(b.subrange(25, 29)) as nat)->Ok_0;
    let pg = pgindex_grammar(plain)->Done_0;
    let n = pg.compr.len() as int;
    let sc = pg.size_compressed;
    let pages_at = pgindex_at - prefix_total(sc, n);
    lemma_pgindex_lengths(plain);
    let l = layout(src, sig_at)->Ok_0;
    if n > 0 {
        let i = n - 1;
        lemma_prefix_total_mono(sc, i, n);
        assert(prefix_total(sc, n) == prefix_total(sc, i) + sc[i]);
        assert(0 <= pages_at && pgindex_at <= src.len());
        assert(l.entries[i].offset == (pages_at + prefix_total(sc, i)) as u64);
        assert(l.entries[i].compressed_len == sc[i]);
    }
}

proof fn lemma_be32s_at_index(blob: Seq<u8>, p: int, n: int, i: int)
    requires
        be32s_at(blob, p, n) is Done,
        0 <= i < n,
    ensures
        be32s_at(blob, p, n)->Done_0[i] == be_u32(blob.subrange(p + 4 * i, p + 4 * i + 4)) as u32,
    decreases n,
{
    let rest = be32s_at(blob, p + 4, n - 1);
    assert(rest is Done);
    lemma_be32s_len(blob, p + 4, n - 1);
    let x = be_u32(blob.subrange(p, p + 4)) as u32;
    assert(be32s_at(blob, p, n)->Done_0 == seq![x] + rest->Done_0);
    if i > 0 {
        lemma_be32s_at_index(blob, p + 4, n - 1, i - 1);
        assert(p + 4 + 4 * (i - 1) == p + 4 * i);
        assert((seq![x] + rest->Done_0)[i] == rest->Done_0[i - 1]);
    }
}

/// What a parsed `CFS0003` layout says of page `i`, in terms of the decoded
/// pgindex `plain` (the pgindex blob before the fsindex, decoded by the
/// trailer's pgindex codec up to its declared size): `plain` opens with the
/// page count `n`, then page `i`'s codec id at `4 + i`, its compressed size
/// as the `i`th big-endian `u32` from `4 + 3n`, and its decompressed size as
/// the `i`th from `4 + 7n`.
pub proof fn lemma_entry(src: Seq<u8>, sig_at: int, i: int)
    requires
        src.len() <= u64::MAX,
        layout(src, sig_at) is Ok,
        0 <= i < layout(src, sig_at)->Ok_0.entries.len(),
    ensures
        ({
            let e = layout(src, sig_at)->Ok_0.entries;
            let n = e.len() as int;
            let b = src.subrange(sig_at - TRAILER_LEN, sig_at);
            let fsindex_at = sig_at - TRAILER_LEN - be_u32(b.subrange(47, 51));
            let pgindex_at = fsindex_at - be_u32(b.subrange(21, 25));
            let plain = decoded_with(
                codec_of(b[3])->0,
                src.subrange(pgindex_at, fsindex_at),
                be_u32(b.subrange(25, 29)) as nat,
            )->Ok_0;
            &&& n == be_u32(plain.subrange(0, 4))
            &&& e[i].codec == PageCodec::External(codec_of(plain[4 + i])->0)
            &&& e[i].compressed_len == be_u32(plain.subrange(4 + 3 * n + 4 * i, 4 + 3 * n + 4 * i + 4))
            &&& e[i].uncompressed_len == be_u32(plain.subrange(4 + 7 * n + 4 * i, 4 + 7 * n + 4 * i + 4))
        }),
{
    let trailer_at = sig_at - TRAILER_LEN;
    let b = src.subrange(trailer_at, sig_at);
    let fsindex_at = trailer_at - be_u32(b.subrange(47, 51));
    let pgindex_at = fsindex_at - be_u32(b.subrange(21, 25));
    let plain = decoded_with(codec_of(b[3])->0, src.subrange(pgindex_at, fsindex_at), be_u32(b.subrange(25, 29)) as nat)->Ok_0;
    let pg = pgindex_grammar(plain)->Done_0;
    let n = be_u32(plain.subrange(0, 4));
    lemma_pgindex_lengths(plain);
    lemma_be32s_at_index(plain, 4 + 3 * n, n, i);
    lemma_be32s_at_index(plain, 4 + 7 * n, n, i);
    lemma_be_u32_bound(plain.subrange(4 + 3 * n + 4 * i, 4 + 3 * n + 4 * i + 4));
    lemma_be_u32_bound(plain.subrange(4 + 7 * n + 4 * i, 4 + 7 * n + 4 * i + 4));
    assert(pg.compr[i] == plain[4 + i]);
}

} // verus!
