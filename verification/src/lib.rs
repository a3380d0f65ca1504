//! cookfs, the page-based Tcl virtual filesystem archive format.
pub mod cache;
pub mod codec;
pub mod index;
pub mod page;
pub mod parsers;
pub mod read;

use vstd::prelude::*;

pub use crate::cache::{Budget, Page, PageCache};
pub use crate::codec::Codec;
pub use crate::index::{Block, Idx, Index, Kind, Node};
pub use crate::page::{Layout, PageCodec, PageEntry, PageTable};
pub use crate::read::{Error, Result};

use crate::cache::{
    budget_pages, cached, distinct_keys, key_index, lemma_budget_fits, lemma_key_index,
    lemma_put_from, lemma_touch_from, lru_put, lru_slotted, lru_touched,
};
use crate::codec::{decoded, decoded_with};
use crate::index::{
    all_listed, blocks_size, fsindex_parse, handle, parse_error, paths_view, rooted, tree_wf,
    walk_from, walk_unique, FsIndexParse, KindView, NodeView,
};
use crate::page::LayoutView;
use crate::parsers::{cfs0002, cfs0003};
use crate::read::{be_u32, hit, lemma_be_u32_bound, readable, scanned, sig_bytes};

verus! {

/// Worker count assumed when nothing better is known about the machine.
pub const WORKERS_FALLBACK: usize = 4;

/// Which cookfs trailer format an archive was opened as.
///
/// Both formats share one directory-tree encoding; this only names the
/// difference in trailer shape and how a page's codec is recorded.
#[derive(Debug, Clone, Copy, PartialEq, Eq, Structural)]
pub enum ArchiveVersion {
    /// `CFS0002`: one archive-wide codec byte, per-page id in each blob's
    /// leading byte.
    Cfs0002,
    /// `CFS0003`: per-page codec named explicitly in a separate pgindex table.
    Cfs0003,
}

/// The trailer signatures `open` looks for, in the order it tries them at
/// one position.
pub open spec fn signatures() -> Seq<Seq<u8>> {
    seq![cfs0002::signature_bytes(), cfs0003::signature_bytes()]
}

/// Whether a trailer of format `which` (0 for `CFS0002`, else `CFS0003`)
/// parses behind a signature at `at`: `CFS0002`'s whole page table, or
/// `CFS0003`'s fixed trailer fields.
pub open spec fn trailer_parses(src: Seq<u8>, at: int, which: int) -> bool {
    if which == 0 {
        cfs0002::layout(src, at) is Ok
    } else {
        at >= cfs0003::TRAILER_LEN && readable(
            src.len() as int,
            at - cfs0003::TRAILER_LEN,
            cfs0003::TRAILER_LEN as int,
        )
    }
}

/// Whether the archive in `src` is the one whose signature `which` sits at
/// `at`: among the positions the backward scan checks, it is the rightmost
/// whose trailer parses, and at that position the first such signature.
pub open spec fn located(src: Seq<u8>, at: int, which: int) -> bool {
    let n = signatures()[0].len() as int;
    let l = src.len() as int;
    &&& scanned(l, l, n, at)
    &&& hit(src, signatures(), n, at, which)
    &&& trailer_parses(src, at, which)
    &&& forall|p: int, j: int|
        #![trigger hit(src, signatures(), n, p, j)]
        scanned(l, l, n, p) && hit(src, signatures(), n, p, j) && (p > at || (p == at && j
            < which)) ==> !trailer_parses(src, p, j)
}

/// Where the archive in `src` sits, as its signature's position and index
/// into [`signatures`], if anywhere.
pub open spec fn location(src: Seq<u8>) -> Option<(int, int)> {
    if exists|at: int, which: int| located(src, at, which) {
        Some(choose|at: int, which: int| located(src, at, which))
    } else {
        None
    }
}

/// At most one position and signature locate an archive.
pub proof fn lemma_location_unique(src: Seq<u8>, a1: int, w1: int, a2: int, w2: int)
    requires
        located(src, a1, w1),
        located(src, a2, w2),
    ensures
        a1 == a2 && w1 == w2,
{
    let n = signatures()[0].len() as int;
    assert(hit(src, signatures(), n, a1, w1));
    assert(hit(src, signatures(), n, a2, w2));
}

/// The page layout behind signature `which` at `at`.
pub open spec fn layout_of(src: Seq<u8>, at: int, which: int) -> core::result::Result<
    LayoutView,
    Error,
> {
    if which == 0 {
        cfs0002::layout(src, at)
    } else {
        cfs0003::layout(src, at)
    }
}

/// What decoding a page or fsindex blob yields, per its codec:
/// `uncompressed_len` bounds a raw LZMA1 stream.
pub open spec fn blob_decoded(blob: Seq<u8>, codec: PageCodec, uncompressed_len: u32) -> core::result::Result<
    Seq<u8>,
    Error,
> {
    match codec {
        PageCodec::Prefixed => decoded(blob, uncompressed_len as nat),
        PageCodec::External(c) => decoded_with(c, blob, uncompressed_len as nat),
    }
}

/// The layout and decoded fsindex blob of the archive located at `at` as
/// format `which`, or the first error on the way: the layout, the read of
/// the fsindex blob, and its decoding (bounded by its declared size, or by
/// `u32::MAX` where the format declares none).
pub open spec fn fsindex_blob(src: Seq<u8>, at: int, which: int) -> core::result::Result<
    (LayoutView, Seq<u8>),
    Error,
> {
    match layout_of(src, at, which) {
        Err(e) => Err(e),
        Ok(l) => if !readable(src.len() as int, l.fsindex_at as int, l.fsindex_len as int) {
            Err(Error::Io { offset: l.fsindex_at })
        } else {
            let raw = src.subrange(l.fsindex_at as int, l.fsindex_at + l.fsindex_len);
            let bound = match l.fsindex_uncompressed_len {
                Some(u) => u,
                None => u32::MAX,
            };
            match blob_decoded(raw, l.fsindex_codec, bound) {
                Err(e) => Err(e),
                Ok(plain) => Ok((l, plain)),
            }
        },
    }
}

/// How `open` decodes the fsindex: its compressed bytes at the layout's
/// fsindex position, decoded by the layout's fsindex codec with the read
/// bounded by the size the trailer declares, the `CFS0003` trailer's
/// decompressed fsindex size (its bytes 51..55), or `u32::MAX` for
/// `CFS0002`, whose trailer declares none.
pub proof fn lemma_fsindex_decoded_to_declared_size(src: Seq<u8>, at: int, which: int)
    requires
        src.len() <= u64::MAX,
        layout_of(src, at, which) is Ok,
        readable(
            src.len() as int,
            layout_of(src, at, which)->Ok_0.fsindex_at as int,
            layout_of(src, at, which)->Ok_0.fsindex_len as int,
        ),
    ensures
        ({
            let l = layout_of(src, at, which)->Ok_0;
            let raw = src.subrange(l.fsindex_at as int, l.fsindex_at + l.fsindex_len);
            let bound: nat = if which == 0 {
                u32::MAX as nat
            } else {
                be_u32(src.subrange(at - cfs0003::TRAILER_LEN, at).subrange(51, 55)) as nat
            };
            let d = match l.fsindex_codec {
                PageCodec::Prefixed => decoded(raw, bound),
                PageCodec::External(c) => decoded_with(c, raw, bound),
            };
            fsindex_blob(src, at, which) == match d {
                Ok(plain) => Ok::<(LayoutView, Seq<u8>), Error>((l, plain)),
                Err(e) => Err::<(LayoutView, Seq<u8>), Error>(e),
            }
        }),
{
    if which == 0 {
        cfs0002::lemma_regions(src, at);
    } else {
        cfs0003::lemma_regions(src, at);
        lemma_be_u32_bound(src.subrange(at - cfs0003::TRAILER_LEN, at).subrange(51, 55));
    }
}

/// How a page is read: the `compressed_len` bytes at its offset, decoded by
/// its codec with the read bounded by its declared decompressed size; a page
/// past the source is [`Error::Io`] at its offset.
pub proof fn lemma_page_decoded_to_declared_size(src: Seq<u8>, e: PageEntry)
    ensures
        ({
            let raw = src.subrange(e.offset as int, e.offset + e.compressed_len);
            let d = match e.codec {
                PageCodec::Prefixed => decoded(raw, e.uncompressed_len as nat),
                PageCodec::External(c) => decoded_with(c, raw, e.uncompressed_len as nat),
            };
            page_bytes(src, e) == if readable(src.len() as int, e.offset as int, e.compressed_len as int) {
                d
            } else {
                Err::<Seq<u8>, Error>(Error::Io { offset: e.offset })
            }
        }),
{
}

/// The decompressed size of every page, in page order.
pub open spec fn uncompressed_sizes(pages: Seq<PageEntry>) -> Seq<u32> {
    pages.map_values(|e: PageEntry| e.uncompressed_len)
}

/// What a page's bytes decode to: its compressed bytes read from the source,
/// decoded with its codec, or the error on the way.
pub open spec fn page_bytes(src: Seq<u8>, entry: PageEntry) -> core::result::Result<Seq<u8>, Error> {
    if !readable(src.len() as int, entry.offset as int, entry.compressed_len as int) {
        Err(Error::Io { offset: entry.offset })
    } else {
        blob_decoded(
            src.subrange(entry.offset as int, entry.offset + entry.compressed_len),
            entry.codec,
            entry.uncompressed_len,
        )
    }
}

/// The bytes one block names: its range of its page, clamped to the page's
/// end; or [`Error::BadBlock`] for a negative field, or
/// [`Error::PageOutOfRange`] for a page past the table, or the page's own
/// error.
pub open spec fn block_bytes(src: Seq<u8>, pages: Seq<PageEntry>, b: Block) -> core::result::Result<
    Seq<u8>,
    Error,
> {
    if b.page < 0 || b.offset < 0 || b.size < 0 {
        Err(Error::BadBlock { page: b.page, offset: b.offset, size: b.size })
    } else if b.page >= pages.len() {
        Err(Error::PageOutOfRange { page: b.page as usize, pages: pages.len() as usize })
    } else {
        match page_bytes(src, pages[b.page as int]) {
            Err(e) => Err(e),
            Ok(p) => {
                let start = if b.offset < p.len() { b.offset as int } else { p.len() as int };
                let end = if start + b.size < p.len() { start + b.size } else { p.len() as int };
                Ok(p.subrange(start, end))
            },
        }
    }
}

/// A file's contents: its blocks' bytes, concatenated in order, or the
/// error of the first block that fails.
pub open spec fn read_blocks(src: Seq<u8>, pages: Seq<PageEntry>, blocks: Seq<Block>) -> core::result::Result<
    Seq<u8>,
    Error,
>
    decreases blocks.len(),
{
    if blocks.len() == 0 {
        Ok(Seq::empty())
    } else {
        match read_blocks(src, pages, blocks.drop_last()) {
            Err(e) => Err(e),
            Ok(head) => match block_bytes(src, pages, blocks.last()) {
                Err(e) => Err(e),
                Ok(tail) => Ok(head + tail),
            },
        }
    }
}

/// Whether block `b` names a range that lies within its page, and the page
/// decodes.
pub open spec fn block_fits(src: Seq<u8>, pages: Seq<PageEntry>, b: Block) -> bool {
    &&& 0 <= b.page < pages.len()
    &&& 0 <= b.offset
    &&& 0 <= b.size
    &&& page_bytes(src, pages[b.page as int]) is Ok
    &&& b.offset + b.size <= page_bytes(src, pages[b.page as int])->Ok_0.len()
}

/// A file whose every block lies within a page that decodes reads in full:
/// its contents are as long as its blocks declare.
pub proof fn lemma_read_full_size(src: Seq<u8>, pages: Seq<PageEntry>, blocks: Seq<Block>)
    requires
        forall|k: int| 0 <= k < blocks.len() ==> #[trigger] block_fits(src, pages, blocks[k]),
    ensures
        read_blocks(src, pages, blocks) is Ok,
        read_blocks(src, pages, blocks)->Ok_0.len() == blocks_size(blocks),
    decreases blocks.len(),
{
    if blocks.len() > 0 {
        assert forall|k: int| 0 <= k < blocks.drop_last().len() implies #[trigger] block_fits(
            src,
            pages,
            blocks.drop_last()[k],
        ) by {
            assert(blocks.drop_last()[k] == blocks[k]);
        }
        lemma_read_full_size(src, pages, blocks.drop_last());
        assert(block_fits(src, pages, blocks[blocks.len() - 1]));
    }
}

/// Once a prefix of a file's blocks fails, the whole file fails the same way.
proof fn lemma_read_prefix_err(src: Seq<u8>, pages: Seq<PageEntry>, blocks: Seq<Block>, k: int)
    requires
        0 <= k <= blocks.len(),
        read_blocks(src, pages, blocks.take(k)) is Err,
    ensures
        read_blocks(src, pages, blocks) == read_blocks(src, pages, blocks.take(k)),
    decreases blocks.len() - k,
{
    if k < blocks.len() {
        assert(blocks.take(k + 1).drop_last() =~= blocks.take(k));
        lemma_read_prefix_err(src, pages, blocks, k + 1);
    } else {
        assert(blocks.take(k) =~= blocks);
    }
}

/// Whether the cache holds the page of block `b` of archive `a`, as it
/// decodes.
pub open spec fn last_page_cached(
    entries: Seq<(usize, Option<Seq<u8>>)>,
    a: ArchiveView,
    b: Block,
) -> bool {
    0 <= b.page < a.pages.len() && cached(entries, b.page as usize) == Some(
        page_bytes(a.source, a.pages[b.page as int])->Ok_0,
    )
}

/// Whether every page the cache holds is what that page decodes to.
pub open spec fn cache_sound(
    src: Seq<u8>,
    pages: Seq<PageEntry>,
    entries: Seq<(usize, Option<Seq<u8>>)>,
) -> bool {
    forall|a: int|
        0 <= a < entries.len() ==> ((#[trigger] entries[a]).1 matches Some(p) ==> entries[a].0
            < pages.len() && page_bytes(src, pages[entries[a].0 as int]) == Ok::<
            Seq<u8>,
            Error,
        >(p))
}

/// The abstract value of an [`Archive`]: its source bytes, format, page
/// table, directory tree (the root first) and encryption byte.
pub struct ArchiveView {
    pub source: Seq<u8>,
    pub version: ArchiveVersion,
    pub pages: Seq<PageEntry>,
    pub nodes: Seq<NodeView>,
    pub encryption: Option<u8>,
}

/// A cookfs archive opened over the bytes of its file.
///
/// Reads `CFS0002` and `CFS0003` transparently: the format is decided once,
/// during [`Archive::open`], and every read afterward is version-blind.
/// The archive holds its file's bytes; pages are decompressed on demand and
/// held in a bounded cache, and nothing is decompressed up front beyond the
/// fsindex (and, for `CFS0003`, the pgindex).
pub struct Archive {
    src: Vec<u8>,
    version: ArchiveVersion,
    pages: PageTable,
    index: Index,
    cache: PageCache,
    encryption: Option<u8>,
}

impl View for Archive {
    type V = ArchiveView;

    closed spec fn view(&self) -> ArchiveView {
        ArchiveView {
            source: self.src@,
            version: self.version,
            pages: self.pages.entries@,
            nodes: self.index@,
            encryption: self.encryption,
        }
    }
}

/// Whether `r`, the result of opening `src` for `workers` workers, is what
/// opening the archive located at `at` as format `which` gives: the error
/// on the way, or an archive over `src` holding the parsed tree, with an
/// empty cache sized by [`budget_pages`].
pub open spec fn opened_as(
    src: Seq<u8>,
    at: int,
    which: int,
    workers: int,
    r: core::result::Result<Archive, Error>,
) -> bool {
    match fsindex_blob(src, at, which) {
        Err(e) => r == Err::<Archive, Error>(e),
        Ok((l, plain)) => match fsindex_parse(plain) {
            FsIndexParse::Parsed(nodes) => r matches Ok(a) && a.wf() && a@ == (ArchiveView {
                source: src,
                version: if which == 0 {
                    ArchiveVersion::Cfs0002
                } else {
                    ArchiveVersion::Cfs0003
                },
                pages: l.entries,
                nodes,
                encryption: l.encryption,
            }) && a.cache_entries() == Seq::<(usize, Option<Seq<u8>>)>::empty()
                && a.cache_capacity() == budget_pages(uncompressed_sizes(l.entries), workers),
            p => r matches Err(e) && parse_error(e, p, plain),
        },
    }
}

/// The pages of a layout that parsed number at most `u32::MAX`: both formats
/// count them in a big-endian `u32`.
proof fn lemma_layout_pages(src: Seq<u8>, at: int, which: int)
    ensures
        layout_of(src, at, which) matches Ok(l) ==> l.entries.len() <= u32::MAX,
{
    if which == 0 {
        if at >= 9 && readable(src.len() as int, at - 9, 9) {
            lemma_be_u32_bound(src.subrange(at - 5, at - 1));
        }
    } else {
        if at >= cfs0003::TRAILER_LEN && readable(
            src.len() as int,
            at - cfs0003::TRAILER_LEN,
            cfs0003::TRAILER_LEN as int,
        ) {
            let trailer_at = at - cfs0003::TRAILER_LEN;
            let b = src.subrange(trailer_at, at);
            let fsindex_at = trailer_at - be_u32(b.subrange(47, 51));
            let pgindex_at = fsindex_at - be_u32(b.subrange(21, 25));
            if let Some(pg_codec) = crate::codec::codec_of(b[3]) {
                if let Ok(plain) = decoded_with(
                    pg_codec,
                    src.subrange(pgindex_at, fsindex_at),
                    be_u32(b.subrange(25, 29)) as nat,
                ) {
                    if plain.len() >= 4 {
                        lemma_be_u32_bound(plain.subrange(0, 4));
                    }
                }
            }
        }
    }
}

impl Archive {
    /// Whether the archive is well formed: its tree is well shaped with the
    /// root first, and its cache is bounded and holds only pages as they
    /// decode from the source.
    pub closed spec fn wf(self) -> bool {
        &&& tree_wf(self.index@)
        &&& rooted(self.index@)
        &&& all_listed(self.index@)
        &&& self.index.root == (Idx { raw: 0 })
        &&& 1 <= self.index@.len() <= u32::MAX + 1
        &&& self.cache.wf()
        &&& cache_sound(self.src@, self.pages.entries@, self.cache.entries())
    }

    /// The page cache's slots, most recently used first.
    pub closed spec fn cache_entries(self) -> Seq<(usize, Option<Seq<u8>>)> {
        self.cache.entries()
    }

    /// How many pages the cache holds at most.
    pub closed spec fn cache_capacity(self) -> nat {
        self.cache.capacity()
    }

    /// An archive's tree is well shaped: the root comes first and is the one
    /// node without a parent; every other node's parent is a directory that
    /// lists it; a directory's children come after it and name it as their
    /// parent.
    pub proof fn lemma_tree_shape(self)
        requires
            self.wf(),
        ensures
            1 <= self@.nodes.len() <= u32::MAX + 1,
            rooted(self@.nodes),
            all_listed(self@.nodes),
            tree_wf(self@.nodes),
    {
    }

    /// Walking an archive yields every node of its tree but the root.
    pub proof fn lemma_walk_yields_every_node(self, m: int)
        requires
            self.wf(),
            1 <= m < self@.nodes.len(),
        ensures
            exists|k: int|
                0 <= k < walk_from(self@.nodes, handle(0), Seq::empty()).len() && (
                #[trigger] walk_from(self@.nodes, handle(0), Seq::empty())[k]).1 == handle(m),
    {
        crate::index::lemma_walk_yields_every_node(self@.nodes, m);
    }

    /// Walking an archive yields no node of its tree twice.
    pub proof fn lemma_walk_yields_no_node_twice(self)
        requires
            self.wf(),
        ensures
            walk_unique(walk_from(self@.nodes, handle(0), Seq::empty())),
    {
        crate::index::lemma_walk_yields_no_node_twice(self@.nodes);
    }

    /// Every page an archive's cache holds is that page as it decodes from
    /// the archive's source; the cache holds no page twice, and at most its
    /// capacity, which is never below two.
    pub proof fn lemma_cache_holds_decoded_pages(self)
        requires
            self.wf(),
        ensures
            cache_sound(self@.source, self@.pages, self.cache_entries()),
            distinct_keys(self.cache_entries()),
            self.cache_entries().len() <= self.cache_capacity(),
            self.cache_capacity() >= 2,
    {
    }

    /// Opens a `CFS0002` or `CFS0003` archive, parsing its trailer and
    /// directory tree, with a cache sized for [`WORKERS_FALLBACK`] workers.
    ///
    /// Returns [`Error::NoSignature`] if no known trailer parses anywhere in
    /// `src`, or any error a format-specific parser or the fsindex parser can
    /// produce.
    pub fn open(src: Vec<u8>) -> (r: Result<Self>)
        ensures
            match location(src@) {
                None => r == Err::<Archive, Error>(Error::NoSignature),
                Some((at, which)) => opened_as(src@, at, which, WORKERS_FALLBACK as int, r),
            },
    {
        Self::open_with_workers(src, WORKERS_FALLBACK)
    }

    /// Opens a `CFS0002` or `CFS0003` archive as [`Archive::open`] does,
    /// sizing the cache for `workers` concurrent readers.
    ///
    /// The archive is the one whose signature the backward scan meets first
    /// with a trailer that parses behind it.
    pub fn open_with_workers(src: Vec<u8>, workers: usize) -> (r: Result<Self>)
        requires
            workers < 0x8000_0000,
        ensures
            match location(src@) {
                None => r == Err::<Archive, Error>(Error::NoSignature),
                Some((at, which)) => opened_as(src@, at, which, workers as int, r),
            },
    {
        let bytes = src.as_slice();
        let len = crate::read::length(bytes)?;
        let s2 = cfs0002::signature();
        let s3 = cfs0003::signature();
        let sigs: Vec<&[u8]> = vec![s2.as_slice(), s3.as_slice()];
        assert(sig_bytes(sigs@) =~= signatures());
        let validate = |candidate: u64, idx: usize| -> (ok: bool)
            ensures
                ok == trailer_parses(bytes@, candidate as int, idx as int),
            {
                if idx == 0 {
                    cfs0002::parse(bytes, candidate).is_ok()
                } else {
                    cfs0003::Trailer::parse(bytes, candidate).is_ok()
                }
            };
        let sl = sigs.as_slice();
        let found = crate::read::find_signature(bytes, len, sl, validate);
        assert(crate::read::sig_len(sig_bytes(sl@)) == 7);
        let (sig_at, which) = match found {
            Ok(f) => f,
            Err(e) => {
                proof {
                    if exists|at: int, w: int| located(src@, at, w) {
                        let (at, w) = choose|at: int, w: int| located(src@, at, w);
                        assert(hit(src@, sig_bytes(sl@), 7, at, w));
                        assert(call_ensures(validate, (at as u64, w as usize), false));
                    }
                }
                return Err(e);
            },
        };
        proof {
            assert(call_ensures(validate, (sig_at, which), true));
            assert forall|p: int, j: int|
                #![trigger hit(src@, signatures(), 7, p, j)]
                scanned(src@.len() as int, src@.len() as int, 7, p) && hit(src@, signatures(), 7, p, j)
                    && (p > sig_at || (p == sig_at && j < which)) implies !trailer_parses(src@, p, j) by {
                assert(hit(src@, sig_bytes(sl@), 7, p, j));
                assert(call_ensures(validate, (p as u64, j as usize), false));
            }
            assert(located(src@, sig_at as int, which as int));
            let (at, w) = location(src@)->0;
            lemma_location_unique(src@, at, w, sig_at as int, which as int);
        }
        let (layout, version) = if which == 0 {
            (cfs0002::parse(bytes, sig_at)?, ArchiveVersion::Cfs0002)
        } else {
            (cfs0003::parse(bytes, sig_at)?, ArchiveVersion::Cfs0003)
        };
        let raw = crate::read::at(bytes, layout.fsindex_at, layout.fsindex_len)?;
        // CFS0002 declares no fsindex uncompressed size; only a raw LZMA1
        // blob needs one to bound its read, and CFS0002 never emits one here.
        let bound = match layout.fsindex_uncompressed_len {
            Some(u) => u,
            None => u32::MAX,
        };
        let plain = decode_page(raw.as_slice(), layout.fsindex_codec, bound)?;
        let index = Index::parse(plain.as_slice())?;
        let mut uncompressed: Vec<u32> = Vec::new();
        let mut i: usize = 0;
        while i < layout.pages.entries.len()
            invariant
                i <= layout.pages.entries@.len(),
                uncompressed@ == uncompressed_sizes(layout.pages.entries@.take(i as int)),
            decreases layout.pages.entries.len() - i,
        {
            uncompressed.push(layout.pages.entries[i].uncompressed_len);
            i = i + 1;
            assert(uncompressed@ =~= uncompressed_sizes(layout.pages.entries@.take(i as int)));
        }
        assert(layout.pages.entries@.take(i as int) =~= layout.pages.entries@);
        proof {
            lemma_layout_pages(src@, sig_at as int, which as int);
            lemma_budget_fits(uncompressed@, workers as int);
        }
        let budget = Budget::from_pages(uncompressed.as_slice(), workers);
        let cache = PageCache::new(budget);
        Ok(Archive {
            src,
            version,
            pages: layout.pages,
            index,
            cache,
            encryption: layout.encryption,
        })
    }

    /// Page `n` of `pages`, decoded from `src`: the cached copy if `cache` holds
    /// one, else loaded and cached.
    ///
    /// Returns [`Error::PageOutOfRange`] if `n` is past the table, or the error
    /// reading or decoding the page; a failed load caches nothing.
    fn page(src: &[u8], pages: &[PageEntry], cache: &mut PageCache, n: usize) -> (r: Result<Page>)
        requires
            old(cache).wf(),
            cache_sound(src@, pages@, old(cache).entries()),
        ensures
            final(cache).wf(),
            final(cache).capacity() == old(cache).capacity(),
            cache_sound(src@, pages@, final(cache).entries()),
            n >= pages@.len() ==> r == Err::<Page, Error>(
                Error::PageOutOfRange { page: n, pages: pages@.len() as usize },
            ),
            n < pages@.len() ==> match r {
                Ok(p) => page_bytes(src@, pages@[n as int]) == Ok::<Seq<u8>, Error>(p@),
                Err(e) => page_bytes(src@, pages@[n as int]) == Err::<Seq<u8>, Error>(e),
            },
            r matches Ok(p) ==> cached(final(cache).entries(), n) == Some(p@),
    {
        if n >= pages.len() {
            return Err(Error::PageOutOfRange { page: n, pages: pages.len() });
        }
        let entry = pages[n];
        let load = move || -> (r: Result<Vec<u8>>)
            ensures
                crate::codec::same_result(r, page_bytes(src@, entry)),
            { load_page(src, entry) };
        let ghost before = cache.entries();
        let ghost cap = cache.capacity();
        let got = cache.get_or_load(n, load);
        proof {
            lemma_key_index(before, n);
            lemma_touch_from(before, n);
            lemma_put_from(before, cap, n, None);
            let slotted = lru_slotted(before, cap, n);
            crate::cache::lemma_touch_bounded(before, n);
            crate::cache::lemma_put_bounded(before, cap, n, None);
            if cached(before, n) is Some {
                lemma_sound_from(src@, pages@, before, cache.entries(), n, None);
                let k = key_index(before, n);
                assert(before[k].1 == cached(before, n));
            } else {
                lemma_sound_from(src@, pages@, before, slotted, n, None);
                if got is Ok {
                    let page = got->Ok_0;
                    let v = choose|v: Vec<u8>| #[trigger] call_ensures(load, (), Ok::<Vec<u8>, Error>(v)) && v@ == page@;
                    assert(call_ensures(load, (), Ok::<Vec<u8>, Error>(v)));
                    lemma_put_from(slotted, cap, n, Some(page@));
                    lemma_sound_from(src@, pages@, slotted, cache.entries(), n, Some(page@));
                }
            }
        }
        got
    }

    /// Reads a file node's full decompressed contents.
    ///
    /// Returns an empty vector for a directory node. The node must be one of
    /// the archive's own.
    ///
    /// Returns [`Error::BadBlock`] for a block with a negative field,
    /// [`Error::PageOutOfRange`] for a block naming a page past the page
    /// table, or any error reading or decoding a page; a block's range is
    /// clamped to its page's end.
    ///
    /// Pages are read through the cache; after a successful read the page of
    /// the file's last block is resident.
    pub fn read(&mut self, node: Idx) -> (r: Result<Vec<u8>>)
        requires
            old(self).wf(),
            (node.raw as int) < old(self)@.nodes.len(),
        ensures
            final(self).wf(),
            final(self)@ == old(self)@,
            match old(self)@.nodes[node.raw as int].kind {
                KindView::Dir(_) => r matches Ok(v) && v@ == Seq::<u8>::empty(),
                KindView::File(blocks) => crate::codec::same_result(
                    r,
                    read_blocks(old(self)@.source, old(self)@.pages, blocks),
                ) && (r is Ok && blocks.len() > 0 ==> last_page_cached(
                    final(self).cache_entries(),
                    old(self)@,
                    blocks.last(),
                )),
            },
    {
        let entry = crate::index::arena_get(&self.index.nodes, node);
        let blocks = match &entry.kind {
            Kind::File(blocks) => blocks,
            Kind::Dir(_) => return Ok(Vec::new()),
        };
        let ghost src = self.src@;
        let ghost pages = self.pages.entries@;
        let ghost view0 = self@;
        let mut out: Vec<u8> = Vec::new();
        let mut i: usize = 0;
        while i < blocks.len()
            invariant
                i <= blocks@.len(),
                src == self.src@,
                pages == self.pages.entries@,
                self.wf(),
                self@ == view0,
                view0 == old(self)@,
                i > 0 ==> last_page_cached(self.cache.entries(), view0, blocks@[i - 1]),
                view0.nodes[node.raw as int].kind == KindView::File(blocks@),
                read_blocks(src, pages, blocks@.take(i as int)) == Ok::<Seq<u8>, Error>(out@),
            decreases blocks.len() - i,
        {
            let block = blocks[i];
            proof {
                assert(blocks@.take(i + 1).drop_last() =~= blocks@.take(i as int));
                assert(blocks@.take(i + 1).last() == block);
            }
            if !(block.page >= 0 && block.offset >= 0 && block.size >= 0) {
                proof {
                    lemma_read_prefix_err(src, pages, blocks@, i + 1);
                }
                return Err(Error::BadBlock { page: block.page, offset: block.offset, size: block.size });
            }
            let page = match Self::page(
                self.src.as_slice(),
                self.pages.entries.as_slice(),
                &mut self.cache,
                block.page as usize,
            ) {
                Ok(page) => page,
                Err(e) => {
                    proof {
                        lemma_read_prefix_err(src, pages, blocks@, i + 1);
                    }
                    return Err(e);
                },
            };
            let plen = page.len();
            let start = if (block.offset as usize) < plen {
                block.offset as usize
            } else {
                plen
            };
            let end = if (start as u64) + (block.size as u64) < plen as u64 {
                start + block.size as usize
            } else {
                plen
            };
            let piece = vstd::slice::slice_subrange(page.as_slice(), start, end);
            out.extend_from_slice(piece);
            i = i + 1;
            assert(out@ =~= read_blocks(src, pages, blocks@.take(i as int))->Ok_0);
        }
        assert(blocks@.take(blocks@.len() as int) =~= blocks@);
        Ok(out)
    }

    /// Looks up a node by its handle, which must be one of the archive's own.
    pub fn node(&self, node: Idx) -> (r: &Node)
        requires
            (node.raw as int) < self@.nodes.len(),
        ensures
            r@ == self@.nodes[node.raw as int],
    {
        crate::index::arena_get(&self.index.nodes, node)
    }

    /// Walks the directory tree depth-first, yielding each node's full path.
    ///
    /// Children are visited in name order, each directory's own entry coming
    /// before everything under it.
    pub fn walk(&self) -> (r: Vec<(String, Idx)>)
        requires
            self.wf(),
        ensures
            paths_view(r@) == walk_from(self@.nodes, Idx { raw: 0 }, Seq::empty()),
    {
        self.index.walk()
    }

    /// Which on-disk trailer format this archive was opened as.
    pub fn version(&self) -> (r: ArchiveVersion)
        ensures
            r == self@.version,
    {
        self.version
    }

    /// `CFS0003`'s encryption byte, or `None` for a `CFS0002` archive, which
    /// has none.
    ///
    /// Its meaning is unconfirmed; both known samples read `0x78`, and the
    /// Tcl reader does not gate behavior on this value. Treat a
    /// non-zero value as a signal to investigate, not as an error.
    pub fn encryption(&self) -> (r: Option<u8>)
        ensures
            r == self@.encryption,
    {
        self.encryption
    }
}

/// A cache whose entries come from a sound cache, or are `(n, v)` with `v`
/// the page `n` decodes to, is sound.
proof fn lemma_sound_from(
    src: Seq<u8>,
    pages: Seq<PageEntry>,
    before: Seq<(usize, Option<Seq<u8>>)>,
    after: Seq<(usize, Option<Seq<u8>>)>,
    n: usize,
    v: Option<Seq<u8>>,
)
    requires
        cache_sound(src, pages, before),
        forall|a: int| 0 <= a < after.len() ==> #[trigger] after[a] == (n, v) || before.contains(after[a]),
        v matches Some(p) ==> n < pages.len() && page_bytes(src, pages[n as int]) == Ok::<Seq<u8>, Error>(p),
    ensures
        cache_sound(src, pages, after),
{
    assert forall|a: int| 0 <= a < after.len() implies ((#[trigger] after[a]).1 matches Some(p) ==> after[a].0
        < pages.len() && page_bytes(src, pages[after[a].0 as int]) == Ok::<Seq<u8>, Error>(p)) by {
        if after[a] != (n, v) {
            let b = choose|b: int| 0 <= b < before.len() && before[b] == after[a];
            assert(before[b] == after[a]);
        }
    }
}

/// Reads page `entry`'s compressed bytes from `src` and decodes them.
fn load_page(src: &[u8], entry: PageEntry) -> (r: Result<Vec<u8>>)
    ensures
        crate::codec::same_result(r, page_bytes(src@, entry)),
{
    let raw = crate::read::at(src, entry.offset, entry.compressed_len as usize)?;
    decode_page(raw.as_slice(), entry.codec, entry.uncompressed_len)
}

/// Decodes a page or fsindex blob per its normalized [`PageCodec`].
///
/// This is the one place `CFS0002`'s leading-byte convention and `CFS0003`'s
/// externally-named codec converge: everywhere else, a blob just has a
/// [`PageCodec`] and this function is how it gets decoded. `uncompressed_len`
/// is the blob's own declared decompressed size, needed only to bound a raw
/// LZMA1 stream that carries no end-of-stream marker of its own.
fn decode_page(blob: &[u8], codec: PageCodec, uncompressed_len: u32) -> (r: Result<Vec<u8>>)
    ensures
        crate::codec::same_result(r, blob_decoded(blob@, codec, uncompressed_len)),
{
    let uncompressed_len = uncompressed_len as usize;
    match codec {
        PageCodec::Prefixed => crate::codec::decode(blob, uncompressed_len),
        PageCodec::External(id) => crate::codec::decode_with(id, blob, uncompressed_len),
    }
}

} // verus!
