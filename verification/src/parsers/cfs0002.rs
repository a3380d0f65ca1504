//! `CFS0002` trailer and page-table parsing.
//!
//! Everything a `CFS0002` archive needs to describe itself lives in a
//! fixed-shape trailer appended after the signature: a 9-byte head, a
//! page-size table, and a 16-byte-per-page meta table, each addressed by
//! walking outward from the signature using the previous field's length.
use vstd::prelude::*;

use crate::page::{same_layout, Layout, LayoutView, PageCodec, PageEntry, PageTable};
use crate::read::{at, be32, be_u32, lemma_be_u32_bound, readable, Error, Result};

verus! {

/// The seven bytes that mark the end of a `CFS0002` trailer: "CFS0002".
pub open spec fn signature_bytes() -> Seq<u8> {
    seq![0x43u8, 0x46u8, 0x53u8, 0x30u8, 0x30u8, 0x30u8, 0x32u8]
}

/// The seven bytes that mark the end of a `CFS0002` trailer.
pub fn signature() -> (r: Vec<u8>)
    ensures
        r@ == signature_bytes(),
{
    let r = vec![0x43u8, 0x46u8, 0x53u8, 0x30u8, 0x30u8, 0x30u8, 0x32u8];
    assert(r@ =~= signature_bytes());
    r
}

/// The compressed size of page `i`, from the size table at `sizes_at`.
pub open spec fn page_size(src: Seq<u8>, sizes_at: int, i: int) -> int {
    be_u32(src.subrange(sizes_at + 4 * i, sizes_at + 4 * i + 4))
}

/// The compressed sizes of the first `k` pages, summed.
pub open spec fn sizes_total(src: Seq<u8>, sizes_at: int, k: int) -> int
    decreases k,
{
    if k <= 0 {
        0
    } else {
        sizes_total(src, sizes_at, k - 1) + page_size(src, sizes_at, k - 1)
    }
}

proof fn lemma_sizes_total_bounds(src: Seq<u8>, sizes_at: int, k: int)
    requires
        0 <= k,
        0 <= sizes_at,
        sizes_at + 4 * k <= src.len(),
    ensures
        0 <= sizes_total(src, sizes_at, k) <= k * 0xFFFF_FFFF,
    decreases k,
{
    if k > 0 {
        lemma_sizes_total_bounds(src, sizes_at, k - 1);
        let s = src.subrange(sizes_at + 4 * (k - 1), sizes_at + 4 * (k - 1) + 4);
        assert(0 <= page_size(src, sizes_at, k - 1) <= 0xFFFF_FFFF) by {
            assert(0 <= s[0] <= 255 && 0 <= s[1] <= 255 && 0 <= s[2] <= 255 && 0 <= s[3] <= 255);
        }
    }
}

/// The page table behind a `CFS0002` signature at `sig_at`.
///
/// The 9 bytes before the signature hold the fsindex length and the page
/// count (big-endian `u32`s) and a codec byte that every blob repeats for
/// itself. Walking outward come the fsindex blob, a 4-byte compressed size
/// per page, a 16-byte meta record per page (bytes 8..12 of which hold the
/// page's decompressed size, big-endian), and the pages, back to back.
pub open spec fn layout(src: Seq<u8>, sig_at: int) -> core::result::Result<LayoutView, Error> {
    if sig_at < 9 {
        Err(Error::BadPageTable)
    } else {
        let head_at = sig_at - 9;
        if !readable(src.len() as int, head_at, 9) {
            Err(Error::Io { offset: head_at as u64 })
        } else {
            let fsindex_len = be_u32(src.subrange(head_at, head_at + 4));
            let page_count = be_u32(src.subrange(head_at + 4, head_at + 8));
            let fsindex_at = head_at - fsindex_len;
            let sizes_at = fsindex_at - 4 * page_count;
            let meta_at = sizes_at - 16 * page_count;
            let pages_at = meta_at - sizes_total(src, sizes_at, page_count);
            if fsindex_at < 0 || sizes_at < 0 || meta_at < 0 || pages_at < 0 {
                Err(Error::BadPageTable)
            } else {
                Ok(
                    LayoutView {
                        entries: Seq::new(
                            page_count as nat,
                            |i: int|
                                PageEntry {
                                    offset: (pages_at + sizes_total(src, sizes_at, i)) as u64,
                                    compressed_len: page_size(src, sizes_at, i) as u32,
                                    uncompressed_len: be_u32(
                                        src.subrange(meta_at + 16 * i + 8, meta_at + 16 * i + 12),
                                    ) as u32,
                                    codec: PageCodec::Prefixed,
                                },
                        ),
                        fsindex_at: fsindex_at as u64,
                        fsindex_len: fsindex_len as usize,
                        fsindex_uncompressed_len: None,
                        fsindex_codec: PageCodec::Prefixed,
                        encryption: None,
                    },
                )
            }
        }
    }
}

/// Parses the trailer and page table behind a `CFS0002` signature at `sig_at`.
///
/// Returns [`Error::BadPageTable`] if any length-prefixed field would place a
/// region before offset 0, or [`Error::Io`] if a read runs past the source's
/// bounds.
pub fn parse(src: &[u8], sig_at: u64) -> (r: Result<Layout>)
    ensures
        same_layout(r, layout(src@, sig_at as int)),
{
    let head_at = match sig_at.checked_sub(9) {
        Some(v) => v,
        None => return Err(Error::BadPageTable),
    };
    let src_len = src.len();
    let head = at(src, head_at, 9)?;
    assert(head@.subrange(0, 4) =~= src@.subrange(head_at as int, head_at + 4));
    assert(head@.subrange(4, 8) =~= src@.subrange(head_at + 4, head_at + 8));
    let fsindex_len = be32(&head, 0) as usize;
    let page_count = be32(&head, 4) as usize;
    // head[8] is the archive-wide codec id; every blob names its own id, so
    // it carries no information this reader needs.
    let fsindex_at = match head_at.checked_sub(fsindex_len as u64) {
        Some(v) => v,
        None => return Err(Error::BadPageTable),
    };
    let sizes_at = match fsindex_at.checked_sub(4 * page_count as u64) {
        Some(v) => v,
        None => return Err(Error::BadPageTable),
    };
    // 16 bytes per page. The Tcl reader calls this an MD5 digest; with
    // `cookfs.pagehash: crc32` the last 8 bytes read as size + CRC-32.
    let meta_at = match sizes_at.checked_sub(16 * page_count as u64) {
        Some(v) => v,
        None => {
            proof {
                lemma_sizes_total_bounds(src@, sizes_at as int, 0);
            }
            return Err(Error::BadPageTable);
        },
    };
    let raw = at(src, sizes_at, 4 * page_count)?;
    let mut page_sizes: Vec<u32> = Vec::with_capacity(page_count);
    let mut total: u64 = 0;
    let mut i: usize = 0;
    while i < page_count
        invariant
            i <= page_count <= 0xFFFF_FFFF,
            4 * page_count <= src@.len(),
            sizes_at + 4 * page_count <= src@.len(),
            raw@ == src@.subrange(sizes_at as int, sizes_at + 4 * page_count),
            page_sizes@.len() == i,
            forall|k: int| 0 <= k < i ==> #[trigger] page_sizes@[k] == page_size(src@, sizes_at as int, k),
            total == sizes_total(src@, sizes_at as int, i as int),
        decreases page_count - i,
    {
        proof {
            lemma_sizes_total_bounds(src@, sizes_at as int, i + 1);
            assert(raw@.subrange(4 * i, 4 * i + 4) =~= src@.subrange(sizes_at + 4 * i, sizes_at + 4 * i + 4));
            assert((i + 1) * 0xFFFF_FFFF <= 0xFFFF_FFFF * 0xFFFF_FFFF) by (nonlinear_arith)
                requires
                    i + 1 <= 0xFFFF_FFFF,
            ;
        }
        let size = be32(&raw, i * 4);
        page_sizes.push(size);
        total = total + size as u64;
        i = i + 1;
    }
    let pages_at = match meta_at.checked_sub(total) {
        Some(v) => v,
        None => return Err(Error::BadPageTable),
    };
    let meta = at(src, meta_at, 16 * page_count)?;
    let mut entries: Vec<PageEntry> = Vec::with_capacity(page_count);
    let mut offset = pages_at;
    let mut i: usize = 0;
    let ghost want = layout(src@, sig_at as int);
    while i < page_count
        invariant
            i <= page_count <= 0xFFFF_FFFF,
            page_sizes@.len() == page_count,
            sizes_at + 4 * page_count <= src@.len(),
            16 * page_count <= meta.len(),
            meta_at + 16 * page_count <= src@.len(),
            meta@ == src@.subrange(meta_at as int, meta_at + 16 * page_count),
            forall|k: int| 0 <= k < page_count ==> #[trigger] page_sizes@[k] == page_size(src@, sizes_at as int, k),
            pages_at + sizes_total(src@, sizes_at as int, page_count as int) == meta_at,
            offset == pages_at + sizes_total(src@, sizes_at as int, i as int),
            entries@.len() == i,
            forall|k: int|
                0 <= k < i ==> #[trigger] entries@[k] == (PageEntry {
                    offset: (pages_at + sizes_total(src@, sizes_at as int, k)) as u64,
                    compressed_len: page_size(src@, sizes_at as int, k) as u32,
                    uncompressed_len: be_u32(
                        src@.subrange(meta_at + 16 * k + 8, meta_at + 16 * k + 12),
                    ) as u32,
                    codec: PageCodec::Prefixed,
                }),
        decreases page_count - i,
    {
        proof {
            assert(meta@.subrange(16 * i + 8, 16 * i + 12) =~= src@.subrange(
                meta_at + 16 * i + 8,
                meta_at + 16 * i + 12,
            ));
            lemma_sizes_total_mono(src@, sizes_at as int, i + 1, page_count as int);
        }
        let uncompressed = be32(&meta, i * 16 + 8);
        entries.push(
            PageEntry {
                offset,
                compressed_len: page_sizes[i],
                uncompressed_len: uncompressed,
                codec: PageCodec::Prefixed,
            },
        );
        offset = offset + page_sizes[i] as u64;
        i = i + 1;
    }
    let r = Layout {
        pages: PageTable { entries },
        fsindex_at,
        fsindex_len,
        fsindex_uncompressed_len: None,
        fsindex_codec: PageCodec::Prefixed,
        encryption: None,
    };
    proof {
        assert(r@.entries =~= want->Ok_0.entries);
    }
    Ok(r)
}

proof fn lemma_sizes_total_mono(src: Seq<u8>, sizes_at: int, j: int, k: int)
    requires
        0 <= j <= k,
        0 <= sizes_at,
        sizes_at + 4 * k <= src.len(),
    ensures
        sizes_total(src, sizes_at, j) <= sizes_total(src, sizes_at, k),
    decreases k - j,
{
    if j < k {
        lemma_sizes_total_mono(src, sizes_at, j, k - 1);
        lemma_sizes_total_bounds(src, sizes_at, k);
        let s = src.subrange(sizes_at + 4 * (k - 1), sizes_at + 4 * (k - 1) + 4);
        assert(0 <= s[0] && 0 <= s[1] && 0 <= s[2] && 0 <= s[3]);
    }
}

/// The pages of a parsed `CFS0002` layout lie back to back: each begins
/// where the one before it ends.
pub proof fn lemma_pages_back_to_back(src: Seq<u8>, sig_at: int, i: int)
    requires
        src.len() <= u64::MAX,
        layout(src, sig_at) is Ok,
        0 <= i,
        i + 1 < layout(src, sig_at)->Ok_0.entries.len(),
    ensures
        ({
            let e = layout(src, sig_at)->Ok_0.entries;
            e[i + 1].offset == e[i].offset + e[i].compressed_len
        }),
{
    let head_at = sig_at - 9;
    let fsindex_len = be_u32(src.subrange(head_at, head_at + 4));
    let page_count = be_u32(src.subrange(head_at + 4, head_at + 8));
    let fsindex_at = head_at - fsindex_len;
    let sizes_at = fsindex_at - 4 * page_count;
    let meta_at = sizes_at - 16 * page_count;
    let pages_at = meta_at - sizes_total(src, sizes_at, page_count);
    lemma_sizes_total_mono(src, sizes_at, i + 1, page_count);
    lemma_sizes_total_mono(src, sizes_at, i, i + 1);
    lemma_be_u32_bound(src.subrange(sizes_at + 4 * i, sizes_at + 4 * i + 4));
    assert(sizes_total(src, sizes_at, i + 1) == sizes_total(src, sizes_at, i) + page_size(src, sizes_at, i));
    assert(0 <= pages_at && meta_at <= src.len());
    lemma_sizes_total_bounds(src, sizes_at, i);
    let e = layout(src, sig_at)->Ok_0.entries;
    assert(e[i].offset == (pages_at + sizes_total(src, sizes_at, i)) as u64);
    assert(e[i + 1].offset == (pages_at + sizes_total(src, sizes_at, i + 1)) as u64);
    assert(e[i].compressed_len == page_size(src, sizes_at, i) as u32);
}

/// Where a parsed `CFS0002` layout places its regions, in terms of the 9
/// head bytes before the signature: the fsindex blob lies just before the
/// head, the page count is the head's second `u32`, and the pages end
/// exactly where the size and meta tables (20 bytes per page) begin, so
/// every offset counts from the start of the source, whatever lies before
/// the archive.
pub proof fn lemma_regions(src: Seq<u8>, sig_at: int)
    requires
        src.len() <= u64::MAX,
        layout(src, sig_at) is Ok,
    ensures
        ({
            let l = layout(src, sig_at)->Ok_0;
            let fsindex_len = be_u32(src.subrange(sig_at - 9, sig_at - 5));
            let n = l.entries.len() as int;
            &&& l.fsindex_len == fsindex_len
            &&& l.fsindex_at == sig_at - 9 - fsindex_len
            &&& n == be_u32(src.subrange(sig_at - 5, sig_at - 1))
            &&& l.fsindex_uncompressed_len is None
            &&& n > 0 ==> l.entries[n - 1].offset + l.entries[n - 1].compressed_len == sig_at - 9
                - fsindex_len - 20 * n
        }),
{
    let head_at = sig_at - 9;
    let fsindex_len = be_u32(src.subrange(head_at, head_at + 4));
    let page_count = be_u32(src.subrange(head_at + 4, head_at + 8));
    let fsindex_at = head_at - fsindex_len;
    let sizes_at = fsindex_at - 4 * page_count;
    let meta_at = sizes_at - 16 * page_count;
    let pages_at = meta_at - sizes_total(src, sizes_at, page_count);
    assert(src.subrange(sig_at - 9, sig_at - 5) == src.subrange(head_at, head_at + 4));
    assert(src.subrange(sig_at - 5, sig_at - 1) == src.subrange(head_at + 4, head_at + 8));
    lemma_be_u32_bound(src.subrange(head_at, head_at + 4));
    lemma_be_u32_bound(src.subrange(head_at + 4, head_at + 8));
    let l = layout(src, sig_at)->Ok_0;
    let n = page_count;
    if n > 0 {
        let i = n - 1;
        lemma_sizes_total_mono(src, sizes_at, i, n);
        lemma_sizes_total_bounds(src, sizes_at, i);
        lemma_sizes_total_bounds(src, sizes_at, n);
        lemma_be_u32_bound(src.subrange(sizes_at + 4 * i, sizes_at + 4 * i + 4));
        assert(sizes_total(src, sizes_at, n) == sizes_total(src, sizes_at, i) + page_size(src, sizes_at, i));
        assert(0 <= pages_at && meta_at <= src.len());
        assert(l.entries[i].offset == (pages_at + sizes_total(src, sizes_at, i)) as u64);
        assert(l.entries[i].compressed_len == page_size(src, sizes_at, i) as u32);
    }
}

/// What a parsed `CFS0002` layout says of page `i`, in terms of the
/// trailer's tables: its compressed size is the `i`th big-endian `u32` of
/// the size table, its decompressed size is bytes 8..12 of its 16-byte meta
/// record, and its codec is named by its blob's own leading byte.
pub proof fn lemma_entry(src: Seq<u8>, sig_at: int, i: int)
    requires
        src.len() <= u64::MAX,
        layout(src, sig_at) is Ok,
        0 <= i < layout(src, sig_at)->Ok_0.entries.len(),
    ensures
        ({
            let e = layout(src, sig_at)->Ok_0.entries;
            let n = e.len() as int;
            let sizes_at = sig_at - 9 - be_u32(src.subrange(sig_at - 9, sig_at - 5)) - 4 * n;
            let meta_at = sizes_at - 16 * n;
            &&& e[i].compressed_len == be_u32(src.subrange(sizes_at + 4 * i, sizes_at + 4 * i + 4))
            &&& e[i].uncompressed_len == be_u32(
                src.subrange(meta_at + 16 * i + 8, meta_at + 16 * i + 12),
            )
            &&& e[i].codec == PageCodec::Prefixed
        }),
{
    let head_at = sig_at - 9;
    let fsindex_len = be_u32(src.subrange(head_at, head_at + 4));
    let page_count = be_u32(src.subrange(head_at + 4, head_at + 8));
    let sizes_at = head_at - fsindex_len - 4 * page_count;
    let meta_at = sizes_at - 16 * page_count;
    lemma_be_u32_bound(src.subrange(sizes_at + 4 * i, sizes_at + 4 * i + 4));
    lemma_be_u32_bound(src.subrange(meta_at + 16 * i + 8, meta_at + 16 * i + 12));
    assert(src.subrange(sig_at - 9, sig_at - 5) == src.subrange(head_at, head_at + 4));
}

} // verus!
