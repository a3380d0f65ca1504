//! The fsindex: the directory tree stored inside a decompressed fsindex blob.
//!
//! A directory's children are inlined depth-first, immediately after the
//! directory entry that owns them, rather than pointed to by offset. Reading
//! the tree is therefore a single linear pass over the blob.
use vstd::prelude::*;
use vstd::string::StringExecFns;
use vstd::utf8::{decode_utf8, encode_utf8, valid_utf8};

use crate::read::{be_i32, be_i64, be_u32, fsindex_magic, Cursor, Error, Result};

verus! {

/// One compressed byte range that a file's contents span.
#[derive(Debug, Clone, Copy)]
pub struct Block {
    /// Index of the page holding this range, in the archive's page table.
    pub page: i32,
    /// Byte offset into the page's decompressed bytes.
    pub offset: i32,
    /// Length of the range in bytes.
    pub size: i32,
}

/// A handle to a [`Node`] in an [`Index`]: its position in allocation order.
#[derive(Debug, Clone, Copy, PartialEq, Eq, Structural, Hash)]
pub struct Idx {
    /// The handle's raw value.
    pub raw: u32,
}

impl Idx {
    /// Creates a handle from its raw value.
    pub fn from_raw(raw: u32) -> (r: Idx)
        ensures
            r.raw == raw,
    {
        Idx { raw }
    }

    /// The handle's raw value.
    pub fn into_raw(self) -> (r: u32)
        ensures
            r == self.raw,
    {
        self.raw
    }
}

/// What a node in the tree is: a directory of children, or a file's blocks.
#[derive(Debug)]
pub enum Kind {
    /// A directory, holding its children in fsindex order.
    Dir(Vec<Idx>),
    /// A file, holding the blocks that make up its contents.
    File(Vec<Block>),
}

/// One entry in the fsindex tree: a file or a directory.
#[derive(Debug)]
pub struct Node {
    /// The entry's own name, not its full path.
    pub name: String,
    /// Modification time, in whatever epoch the archive's Tcl runtime used.
    pub mtime: i64,
    /// The parent directory, or `None` for the root.
    pub parent: Option<Idx>,
    /// Whether this entry is a file or a directory, and its payload.
    pub kind: Kind,
}

/// The abstract value of a [`Kind`].
pub enum KindView {
    /// A directory's children.
    Dir(Seq<Idx>),
    /// A file's blocks.
    File(Seq<Block>),
}

/// The abstract value of a [`Node`].
pub struct NodeView {
    /// The entry's name.
    pub name: Seq<char>,
    /// Modification time.
    pub mtime: i64,
    /// The parent directory.
    pub parent: Option<Idx>,
    /// Directory children or file blocks.
    pub kind: KindView,
}

impl View for Kind {
    type V = KindView;

    open spec fn view(&self) -> KindView {
        match self {
            Kind::Dir(children) => KindView::Dir(children@),
            Kind::File(blocks) => KindView::File(blocks@),
        }
    }
}

impl View for Node {
    type V = NodeView;

    open spec fn view(&self) -> NodeView {
        NodeView { name: self.name@, mtime: self.mtime, parent: self.parent, kind: self.kind@ }
    }
}

/// The decompressed size a list of blocks declares: the sum of their sizes,
/// a negative size counting as zero.
pub open spec fn blocks_size(blocks: Seq<Block>) -> int
    decreases blocks.len(),
{
    if blocks.len() == 0 {
        0
    } else {
        blocks_size(blocks.drop_last()) + (if blocks.last().size < 0 {
            0
        } else {
            blocks.last().size as int
        })
    }
}

/// The decompressed size of a node: the sum of a file's blocks, 0 for a
/// directory.
pub open spec fn node_size(n: NodeView) -> int {
    match n.kind {
        KindView::File(blocks) => blocks_size(blocks),
        KindView::Dir(_) => 0,
    }
}

proof fn lemma_blocks_size_bounds(blocks: Seq<Block>)
    ensures
        0 <= blocks_size(blocks) <= blocks.len() * 0x7FFF_FFFF,
    decreases blocks.len(),
{
    if blocks.len() > 0 {
        lemma_blocks_size_bounds(blocks.drop_last());
    }
}

impl Node {
    /// Whether this entry is a directory.
    pub fn is_dir(&self) -> (r: bool)
        ensures
            r == (self.kind is Dir),
    {
        match self.kind {
            Kind::Dir(_) => true,
            Kind::File(_) => false,
        }
    }

    /// Decompressed size: the sum of a file's blocks, or 0 for a directory.
    ///
    /// A file may hold at most `u32::MAX` blocks, so that the sum fits a `u64`.
    pub fn size(&self) -> (r: u64)
        requires
            self.kind matches Kind::File(blocks) ==> blocks@.len() <= u32::MAX,
        ensures
            r == node_size(self@),
    {
        match &self.kind {
            Kind::File(blocks) => {
                let mut total: u64 = 0;
                let mut i: usize = 0;
                while i < blocks.len()
                    invariant
                        i <= blocks@.len() <= u32::MAX,
                        total == blocks_size(blocks@.take(i as int)),
                    decreases blocks.len() - i,
                {
                    proof {
                        lemma_blocks_size_bounds(blocks@.take(i as int));
                        assert(blocks@.take(i + 1).drop_last() =~= blocks@.take(i as int));
                        assert(total <= u32::MAX * 0x7FFF_FFFF) by (nonlinear_arith)
                            requires
                                total <= i * 0x7FFF_FFFF,
                                i <= u32::MAX,
                        ;
                    }
                    let s = blocks[i].size;
                    if s > 0 {
                        total = total + s as u64;
                    }
                    i = i + 1;
                }
                assert(blocks@.take(blocks.len() as int) =~= blocks@);
                total
            },
            Kind::Dir(_) => 0,
        }
    }
}

#[verifier::external_type_specification]
#[verifier::external_body]
#[verifier::reject_recursive_types(T)]
pub struct ExArena<T>(la_arena::Arena<T>);

/// The nodes a `la_arena::Arena<Node>` holds, in allocation order.
pub uninterp spec fn arena_nodes(arena: la_arena::Arena<Node>) -> Seq<NodeView>;

/// `la_arena::Arena::new`: an arena holding nothing.
#[verifier::external_body]
fn arena_new() -> (a: la_arena::Arena<Node>)
    ensures
        arena_nodes(a) == Seq::<NodeView>::empty(),
{
    la_arena::Arena::new()
}

/// `la_arena::Arena::alloc`: appends `node` and hands back its position,
/// which the crate computes as the arena's length before the push, cast to
/// `u32`; the length is bounded so that the cast is exact.
#[verifier::external_body]
fn arena_alloc(a: &mut la_arena::Arena<Node>, node: Node) -> (i: Idx)
    requires
        arena_nodes(*old(a)).len() <= u32::MAX,
    ensures
        arena_nodes(*final(a)) == arena_nodes(*old(a)).push(node@),
        i.raw == arena_nodes(*old(a)).len(),
{
    let idx = a.alloc(node);
    Idx { raw: u32::from(idx.into_raw()) }
}

/// `la_arena::Arena`'s `Index` impl: the node stored at `i`, which must be
/// in range (the crate indexes a `Vec` and panics otherwise).
#[verifier::external_body]
pub(crate) fn arena_get(a: &la_arena::Arena<Node>, i: Idx) -> (n: &Node)
    requires
        (i.raw as int) < arena_nodes(*a).len(),
    ensures
        n@ == arena_nodes(*a)[i.raw as int],
{
    &a[la_arena::Idx::from_raw(la_arena::RawIdx::from(i.raw))]
}

/// `la_arena::Arena`'s `IndexMut` impl, used to replace the kind of the node
/// at `i`, which must be in range; every other node is left as it was.
#[verifier::external_body]
fn arena_set_kind(a: &mut la_arena::Arena<Node>, i: Idx, kind: Kind)
    requires
        (i.raw as int) < arena_nodes(*old(a)).len(),
    ensures
        arena_nodes(*final(a)) == arena_nodes(*old(a)).update(
            i.raw as int,
            NodeView {
                name: arena_nodes(*old(a))[i.raw as int].name,
                mtime: arena_nodes(*old(a))[i.raw as int].mtime,
                parent: arena_nodes(*old(a))[i.raw as int].parent,
                kind: kind@,
            },
        ),
{
    a[la_arena::Idx::from_raw(la_arena::RawIdx::from(i.raw))].kind = kind;
}

/// What `String::from_utf8_lossy` makes of `bytes`.
pub uninterp spec fn utf8_lossy(bytes: Seq<u8>) -> Seq<char>;

/// `String::from_utf8_lossy`, owned. Its documentation promises that valid
/// UTF-8 comes out as the string it encodes; what replaces invalid sequences
/// is left unsaid here and named `utf8_lossy`.
#[verifier::external_body]
fn lossy_name(bytes: &[u8]) -> (s: String)
    ensures
        s@ == utf8_lossy(bytes@),
        valid_utf8(bytes@) ==> s@ == decode_utf8(bytes@),
{
    String::from_utf8_lossy(bytes).into_owned()
}

/// An entry's name as read from its bytes: the text they encode when they
/// are valid UTF-8, else what `String::from_utf8_lossy` makes of them.
pub open spec fn entry_name(bytes: Seq<u8>) -> Seq<char> {
    if valid_utf8(bytes) {
        decode_utf8(bytes)
    } else {
        utf8_lossy(bytes)
    }
}

/// `la_arena::Arena::len`: how many nodes the arena holds.
#[verifier::external_body]
fn arena_len(a: &la_arena::Arena<Node>) -> (n: usize)
    ensures
        n == arena_nodes(*a).len(),
{
    a.len()
}

/// Whether the handles in `s` increase strictly, so none occurs twice.
pub open spec fn increasing(s: Seq<Idx>) -> bool {
    forall|a: int, b: int| 0 <= a < b < s.len() ==> (#[trigger] s[a]).raw < (#[trigger] s[b]).raw
}

/// Whether the node at `i` respects the tree's shape: a directory's children
/// come after it in the arena, in allocation order, and name it as their
/// parent, and a file holds at most `i32::MAX` blocks.
pub open spec fn node_wf(nodes: Seq<NodeView>, i: int) -> bool {
    match nodes[i].kind {
        KindView::Dir(children) => {
            &&& forall|k: int|
                0 <= k < children.len() ==> i < (#[trigger] children[k]).raw < nodes.len()
                    && nodes[children[k].raw as int].parent == Some(Idx { raw: i as u32 })
            &&& increasing(children)
        },
        KindView::File(blocks) => blocks.len() <= i32::MAX,
    }
}

/// Every node of the arena respects the tree's shape, so the tree is acyclic
/// and every child handle is in range.
pub open spec fn tree_wf(nodes: Seq<NodeView>) -> bool {
    forall|i: int| 0 <= i < nodes.len() ==> #[trigger] node_wf(nodes, i)
}

/// Whether node `i`'s parent, if it has one, is a directory that lists it
/// among its children.
pub open spec fn listed(nodes: Seq<NodeView>, i: int) -> bool {
    match nodes[i].parent {
        None => true,
        Some(p) => p.raw < nodes.len() && match nodes[p.raw as int].kind {
            KindView::Dir(children) => children.contains(Idx { raw: i as u32 }),
            KindView::File(_) => false,
        },
    }
}

/// Whether every node is listed by its parent.
pub open spec fn all_listed(nodes: Seq<NodeView>) -> bool {
    forall|i: int| 0 <= i < nodes.len() ==> #[trigger] listed(nodes, i)
}

/// Whether the root, first in the arena, is the one node with no parent.
pub open spec fn rooted(nodes: Seq<NodeView>) -> bool {
    &&& nodes[0].parent is None
    &&& forall|i: int| 1 <= i < nodes.len() ==> (#[trigger] nodes[i]).parent is Some
}

proof fn lemma_wf_push(nodes: Seq<NodeView>, x: NodeView)
    requires
        tree_wf(nodes),
        node_wf(nodes.push(x), nodes.len() as int),
    ensures
        tree_wf(nodes.push(x)),
{
    let n2 = nodes.push(x);
    assert forall|i: int| 0 <= i < n2.len() implies #[trigger] node_wf(n2, i) by {
        if i < nodes.len() {
            assert(node_wf(nodes, i));
            assert(n2[i] == nodes[i]);
        }
    }
}

proof fn lemma_wf_update(nodes: Seq<NodeView>, j: int, x: NodeView)
    requires
        tree_wf(nodes),
        0 <= j < nodes.len(),
        x.parent == nodes[j].parent,
        node_wf(nodes.update(j, x), j),
    ensures
        tree_wf(nodes.update(j, x)),
{
    let n2 = nodes.update(j, x);
    assert forall|i: int| 0 <= i < n2.len() implies #[trigger] node_wf(n2, i) by {
        if i != j {
            assert(node_wf(nodes, i));
            assert(n2[i] == nodes[i]);
        }
    }
}

/// The outcome of reading one piece of the fsindex grammar: the value read,
/// or the position and length of the first read that ran past the blob.
pub enum Scan<T> {
    /// The read succeeded.
    Done(T),
    /// A read of `need` bytes at `pos` ran past the end.
    Short { pos: int, need: int },
}

/// A directory listing read out of the blob: where it ended, the arena after
/// it, and the handles of the directory's direct children.
pub struct Listing {
    pub end: int,
    pub nodes: Seq<NodeView>,
    pub children: Seq<Idx>,
}

/// The outcome of reading a directory listing: the listing, a read that ran
/// past the blob, or an entry at `pos` for which no node handle is left.
pub enum DirScan {
    /// The listing was read.
    Done(Listing),
    /// A read of `need` bytes at `pos` ran past the end.
    Short { pos: int, need: int },
    /// The tree already holds a node for every `u32` handle.
    Full { pos: int },
}

/// The block at `p`: three big-endian `i32`s, page, offset, size.
pub open spec fn block_at(blob: Seq<u8>, p: int) -> Block {
    Block {
        page: be_i32(blob.subrange(p, p + 4)) as i32,
        offset: be_i32(blob.subrange(p + 4, p + 8)) as i32,
        size: be_i32(blob.subrange(p + 8, p + 12)) as i32,
    }
}

/// `n` blocks read from `p` on.
pub open spec fn blocks_at(blob: Seq<u8>, p: int, n: int) -> Scan<Seq<Block>>
    decreases n,
{
    if n <= 0 {
        Scan::Done(Seq::empty())
    } else if p + 4 > blob.len() {
        Scan::Short { pos: p, need: 4 }
    } else if p + 8 > blob.len() {
        Scan::Short { pos: p + 4, need: 4 }
    } else if p + 12 > blob.len() {
        Scan::Short { pos: p + 8, need: 4 }
    } else {
        match blocks_at(blob, p + 12, n - 1) {
            Scan::Done(rest) => Scan::Done(seq![block_at(blob, p)] + rest),
            Scan::Short { pos, need } => Scan::Short { pos, need },
        }
    }
}

/// The arena after the kind of the node at `id` becomes a directory of
/// `children`.
pub open spec fn with_children(nodes: Seq<NodeView>, id: Idx, children: Seq<Idx>) -> Seq<
    NodeView,
> {
    let n = nodes[id.raw as int];
    nodes.update(
        id.raw as int,
        NodeView { name: n.name, mtime: n.mtime, parent: n.parent, kind: KindView::Dir(children) },
    )
}

/// A directory listing at `p`: a big-endian `u32` entry count, then the
/// entries. Every entry read allocates its node after `nodes`, under
/// `parent`.
pub open spec fn dir_at(blob: Seq<u8>, p: int, nodes: Seq<NodeView>, parent: Idx) -> DirScan
    decreases blob.len() - p,
{
    if p + 4 > blob.len() {
        DirScan::Short { pos: p, need: 4 }
    } else {
        entries_at(blob, p + 4, nodes, parent, be_u32(blob.subrange(p, p + 4)), Seq::empty())
    }
}

/// The remaining `count` entries of a listing, from `p` on, after the
/// children `acc` already read.
///
/// An entry is a name length byte, the name, a NUL, a big-endian `i64`
/// modification time and a big-endian `i32` block count. A count of -1 marks
/// a directory, whose own listing follows at once; any other count is a
/// file's, followed by that many blocks (none if negative).
pub open spec fn entries_at(
    blob: Seq<u8>,
    p: int,
    nodes: Seq<NodeView>,
    parent: Idx,
    count: int,
    acc: Seq<Idx>,
) -> DirScan
    decreases blob.len() - p,
{
    if count <= 0 {
        DirScan::Done(Listing { end: p, nodes, children: acc })
    } else if nodes.len() > u32::MAX {
        DirScan::Full { pos: p }
    } else if p + 1 > blob.len() {
        DirScan::Short { pos: p, need: 1 }
    } else {
        let nlen = blob[p] as int;
        if p + 1 + nlen > blob.len() {
            DirScan::Short { pos: p + 1, need: nlen }
        } else {
            let name = entry_name(blob.subrange(p + 1, p + 1 + nlen));
            let q = p + 1 + nlen;
            if q + 1 > blob.len() {
                DirScan::Short { pos: q, need: 1 }
            } else if q + 9 > blob.len() {
                DirScan::Short { pos: q + 1, need: 8 }
            } else if q + 13 > blob.len() {
                DirScan::Short { pos: q + 9, need: 4 }
            } else {
                let mtime = be_i64(blob.subrange(q + 1, q + 9)) as i64;
                let nblocks = be_i32(blob.subrange(q + 9, q + 13));
                let id = Idx { raw: nodes.len() as u32 };
                if nblocks == -1 {
                    let node = NodeView {
                        name,
                        mtime,
                        parent: Some(parent),
                        kind: KindView::Dir(Seq::empty()),
                    };
                    match dir_at(blob, q + 13, nodes.push(node), id) {
                        DirScan::Short { pos, need } => DirScan::Short { pos, need },
                        DirScan::Full { pos } => DirScan::Full { pos },
                        DirScan::Done(sub) => if p < sub.end <= blob.len() {
                            entries_at(
                                blob,
                                sub.end,
                                with_children(sub.nodes, id, sub.children),
                                parent,
                                count - 1,
                                acc.push(id),
                            )
                        } else {
                            DirScan::Short { pos: p, need: 0 }
                        },
                    }
                } else {
                    match blocks_at(blob, q + 13, nblocks) {
                        Scan::Short { pos, need } => DirScan::Short { pos, need },
                        Scan::Done(blocks) => {
                            let end = q + 13 + 12 * blocks.len();
                            let node = NodeView {
                                name,
                                mtime,
                                parent: Some(parent),
                                kind: KindView::File(blocks),
                            };
                            if p < end <= blob.len() {
                                entries_at(blob, end, nodes.push(node), parent, count - 1, acc.push(id))
                            } else {
                                DirScan::Short { pos: p, need: 0 }
                            }
                        },
                    }
                }
            }
        }
    }
}

/// `n` trailing metadata records from `p` on, each a big-endian `u32`
/// length and that many bytes; where they end.
pub open spec fn records_at(blob: Seq<u8>, p: int, n: int) -> Scan<int>
    decreases n,
{
    if n <= 0 {
        Scan::Done(p)
    } else if p + 4 > blob.len() {
        Scan::Short { pos: p, need: 4 }
    } else {
        let len = be_u32(blob.subrange(p, p + 4));
        if p + 4 + len > blob.len() {
            Scan::Short { pos: p + 4, need: len }
        } else {
            records_at(blob, p + 4 + len, n - 1)
        }
    }
}

/// The root node, before its listing is read.
pub open spec fn root_view() -> NodeView {
    NodeView { name: Seq::empty(), mtime: 0, parent: None, kind: KindView::Dir(Seq::empty()) }
}

/// What a decompressed fsindex blob parses to.
pub enum FsIndexParse {
    /// The arena of every node, the root first.
    Parsed(Seq<NodeView>),
    /// The blob does not open with the magic.
    BadMagic,
    /// A read of `need` bytes at `pos` ran past the end.
    Truncated { pos: int, need: int },
    /// The blob holds bytes past its last record; `got` were consumed.
    Desync { got: int },
}

/// Whether `blob` opens with the fsindex magic.
pub open spec fn has_magic(blob: Seq<u8>) -> bool {
    blob.len() >= 8 && blob.take(8) == fsindex_magic()
}

/// The fsindex grammar: the magic, the root's listing, a big-endian `u32`
/// record count and that many metadata records, and nothing after them.
pub open spec fn fsindex_parse(blob: Seq<u8>) -> FsIndexParse {
    if !has_magic(blob) {
        FsIndexParse::BadMagic
    } else {
        match dir_at(blob, 8, seq![root_view()], Idx { raw: 0 }) {
            DirScan::Short { pos, need } => FsIndexParse::Truncated { pos, need },
            DirScan::Full { pos } => FsIndexParse::Desync { got: pos },
            DirScan::Done(root) => {
                let nodes = with_children(root.nodes, Idx { raw: 0 }, root.children);
                if root.end + 4 > blob.len() {
                    FsIndexParse::Truncated { pos: root.end, need: 4 }
                } else {
                    let n = be_u32(blob.subrange(root.end, root.end + 4));
                    match records_at(blob, root.end + 4, n) {
                        Scan::Short { pos, need } => FsIndexParse::Truncated { pos, need },
                        Scan::Done(end) => if end == blob.len() {
                            FsIndexParse::Parsed(nodes)
                        } else {
                            FsIndexParse::Desync { got: end }
                        },
                    }
                }
            },
        }
    }
}

/// The parsed directory tree of one archive.
#[derive(Debug)]
pub struct Index {
    /// Arena holding every node keyed by its [`Idx`].
    pub nodes: la_arena::Arena<Node>,
    /// Handle of the archive's implicit root directory.
    pub root: Idx,
}

impl View for Index {
    type V = Seq<NodeView>;

    open spec fn view(&self) -> Seq<NodeView> {
        arena_nodes(self.nodes)
    }
}

/// Whether `e` is the error that `p`, a failed parse of `blob`, reports.
pub open spec fn parse_error(e: Error, p: FsIndexParse, blob: Seq<u8>) -> bool {
    match p {
        FsIndexParse::Parsed(_) => false,
        FsIndexParse::BadMagic => e matches Error::BadMagic { magic } && magic@ == blob.take(
            if blob.len() < 8 { blob.len() as int } else { 8 },
        ),
        FsIndexParse::Truncated { pos, need } => e == (Error::Truncated {
            pos: pos as usize,
            need: need as usize,
            len: blob.len() as usize,
        }),
        FsIndexParse::Desync { got } => e == (Error::Desync {
            got: got as usize,
            len: blob.len() as usize,
        }),
    }
}

/// Whether `e` is the error that `s`, a failed read of a listing in `blob`,
/// reports: a short read as [`Error::Truncated`], and an entry with no
/// handle left as [`Error::Desync`] at that entry.
pub open spec fn dir_error(e: Error, s: DirScan, blob: Seq<u8>) -> bool {
    match s {
        DirScan::Done(_) => false,
        DirScan::Short { pos, need } => e == short_error(pos, need, blob),
        DirScan::Full { pos } => e == (Error::Desync { got: pos as usize, len: blob.len() as usize }),
    }
}

/// Cap for `Vec::with_capacity` from untrusted count fields; the vector grows
/// naturally past this bound, but a crafted count cannot force a huge
/// pre-allocation before the cursor errors on missing bytes.
const MAX_PREALLOC: usize = 1024;

/// The error a short read in the grammar reports.
pub open spec fn short_error(pos: int, need: int, blob: Seq<u8>) -> Error {
    Error::Truncated { pos: pos as usize, need: need as usize, len: blob.len() as usize }
}

impl Index {
    /// Parses a decompressed fsindex blob into a tree.
    ///
    /// Returns [`Error::BadMagic`] if the blob does not open with the
    /// expected magic, [`Error::Truncated`] if a truncated or crafted blob
    /// runs out of bytes mid-record, or [`Error::Desync`] if the parser does
    /// not consume exactly the bytes it was given, or, at the entry where it
    /// stops, if the tree already holds a node for every `u32` handle.
    pub fn parse(blob: &[u8]) -> (r: Result<Self>)
        ensures
            match r {
                Ok(index) => fsindex_parse(blob@) == FsIndexParse::Parsed(index@) && index.root
                    == (Idx { raw: 0 }) && tree_wf(index@) && 1 <= index@.len() <= u32::MAX + 1
                    && rooted(index@) && all_listed(index@),
                Err(e) => parse_error(e, fsindex_parse(blob@), blob@),
            },
    {
        if !(blob.len() >= 8 && blob[0] == 0x43 && blob[1] == 0x46 && blob[2] == 0x53 && blob[3]
            == 0x32 && blob[4] == 0x2E && blob[5] == 0x32 && blob[6] == 0x30 && blob[7] == 0x30) {
            let n = if blob.len() < 8 {
                blob.len()
            } else {
                8
            };
            let magic = vstd::slice::slice_to_vec(vstd::slice::slice_subrange(blob, 0, n));
            proof {
                if blob@.len() >= 8 {
                    assert(blob@.take(8) =~= fsindex_magic() ==> blob[0] == 0x43 && blob[1] == 0x46
                        && blob[2] == 0x53 && blob[3] == 0x32 && blob[4] == 0x2E && blob[5] == 0x32
                        && blob[6] == 0x30 && blob[7] == 0x30);
                }
                assert(magic@ =~= blob@.take(n as int));
            }
            return Err(Error::BadMagic { magic });
        }
        assert(blob@.take(8) =~= fsindex_magic());
        let mut nodes = arena_new();
        let root = arena_alloc(
            &mut nodes,
            Node { name: String::new(), mtime: 0, parent: None, kind: Kind::Dir(Vec::new()) },
        );
        proof {
            assert(arena_nodes(nodes) =~= seq![root_view()]);
            assert(node_wf(arena_nodes(nodes), 0));
            assert(tree_wf(arena_nodes(nodes)));
        }
        let mut cursor = Cursor::new(blob);
        cursor.take(8)?;
        let children = read_dir(&mut cursor, blob.len(), &mut nodes, root)?;
        let ghost before = arena_nodes(nodes);
        proof {
            assert(node_wf(before.update(0, NodeView { name: before[0].name, mtime: before[0].mtime, parent: before[0].parent, kind: KindView::Dir(children@) }), 0));
        }
        arena_set_kind(&mut nodes, root, Kind::Dir(children));
        proof {
            lemma_wf_update(before, 0, arena_nodes(nodes)[0]);
            assert(arena_nodes(nodes) == with_children(before, Idx { raw: 0 }, children@));
        }
        // Trailing metadata records (archive-wide key/value pairs) follow the
        // tree. Unused here, but still consumed to prove the blob was read in
        // full.
        let ghost end = cursor.position();
        let count = cursor.be32()?;
        let mut i: u32 = 0;
        #[verifier::loop_isolation(false)]
        while i < count
            invariant
                i <= count,
                cursor.data() == blob@,
                cursor.position() <= blob@.len(),
                records_at(blob@, end + 4, count as int) == records_at(
                    blob@,
                    cursor.position(),
                    count - i,
                ),
            decreases count - i,
        {
            let len = cursor.be32()?;
            cursor.take(len as usize)?;
            i = i + 1;
        }
        let got = cursor.pos();
        if got != blob.len() {
            return Err(Error::Desync { got, len: blob.len() });
        }
        Ok(Index { nodes, root })
    }
}

/// A handle above every handle of an increasing sequence extends it.
proof fn lemma_increasing_push(s: Seq<Idx>, x: Idx)
    requires
        increasing(s),
        forall|k: int| 0 <= k < s.len() ==> (#[trigger] s[k]).raw < x.raw,
    ensures
        increasing(s.push(x)),
{
    assert forall|a: int, b: int| 0 <= a < b < s.push(x).len() implies (#[trigger] s.push(x)[a]).raw
        < (#[trigger] s.push(x)[b]).raw by {
        assert(s.push(x)[a] == s[a]);
        if b < s.len() {
            assert(s.push(x)[b] == s[b]);
        }
    }
}

/// Whether every node from `from` on is either a child of `parent` found in
/// `out`, or listed by its own parent.
pub open spec fn listing_tracked(nodes: Seq<NodeView>, from: int, parent: Idx, out: Seq<Idx>) -> bool {
    forall|m: int|
        from <= m < nodes.len() ==> (if (#[trigger] nodes[m]).parent == Some(parent) {
            out.contains(Idx { raw: m as u32 })
        } else {
            listed(nodes, m)
        })
}

/// Allocating a child of `parent` and adding it to `out` keeps the listing
/// tracked.
proof fn lemma_tracked_push(ns: Seq<NodeView>, node: NodeView, from: int, parent: Idx, out: Seq<Idx>)
    requires
        listing_tracked(ns, from, parent, out),
        node.parent == Some(parent),
        0 <= from,
    ensures
        listing_tracked(ns.push(node), from, parent, out.push(Idx { raw: ns.len() as u32 })),
{
    let fin = ns.push(node);
    let out2 = out.push(Idx { raw: ns.len() as u32 });
    assert forall|m: int| from <= m < fin.len() implies (if (#[trigger] fin[m]).parent == Some(
        parent,
    ) {
        out2.contains(Idx { raw: m as u32 })
    } else {
        listed(fin, m)
    }) by {
        if m < ns.len() {
            assert(fin[m] == ns[m]);
            if ns[m].parent == Some(parent) {
                let w = choose|w: int| 0 <= w < out.len() && out[w] == Idx { raw: m as u32 };
                assert(out2[w] == Idx { raw: m as u32 });
            } else if let Some(pp) = ns[m].parent {
                assert(listed(ns, m));
                assert(fin[pp.raw as int] == ns[pp.raw as int]);
            }
        } else {
            assert(out2[out.len() as int] == Idx { raw: m as u32 });
        }
    }
}

/// Allocating a subdirectory of `parent`, reading its listing into `sub`
/// and setting its children keeps the listing tracked: its own children are
/// now listed by it, and nothing under it names `parent`, whose listing is
/// still empty.
proof fn lemma_tracked_subdir(
    ns: Seq<NodeView>,
    node: NodeView,
    sub: Seq<NodeView>,
    children: Seq<Idx>,
    from: int,
    parent: Idx,
    out: Seq<Idx>,
)
    requires
        listing_tracked(ns, from, parent, out),
        node.parent == Some(parent),
        0 <= parent.raw < from <= ns.len(),
        ns[parent.raw as int].kind == KindView::Dir(Seq::empty()),
        ns.len() + 1 <= sub.len(),
        forall|m: int| 0 <= m < ns.len() + 1 ==> #[trigger] sub[m] == ns.push(node)[m],
        listing_tracked(sub, ns.len() + 1 as int, Idx { raw: ns.len() as u32 }, children),
        ns.len() <= u32::MAX,
    ensures
        listing_tracked(
            with_children(sub, Idx { raw: ns.len() as u32 }, children),
            from,
            parent,
            out.push(Idx { raw: ns.len() as u32 }),
        ),
{
    let l = ns.len() as int;
    let idx = Idx { raw: l as u32 };
    let fin = with_children(sub, idx, children);
    let out2 = out.push(idx);
    assert forall|m: int| from <= m < fin.len() implies (if (#[trigger] fin[m]).parent == Some(
        parent,
    ) {
        out2.contains(Idx { raw: m as u32 })
    } else {
        listed(fin, m)
    }) by {
        if m < l {
            assert(sub[m] == ns.push(node)[m]);
            assert(fin[m] == ns[m]);
            if ns[m].parent == Some(parent) {
                let w = choose|w: int| 0 <= w < out.len() && out[w] == Idx { raw: m as u32 };
                assert(out2[w] == Idx { raw: m as u32 });
            } else {
                if let Some(pp) = ns[m].parent {
                    assert(listed(ns, m));
                    assert(sub[pp.raw as int] == ns.push(node)[pp.raw as int]);
                    assert(fin[pp.raw as int] == ns[pp.raw as int]);
                }
            }
        } else if m == l {
            assert(sub[m] == ns.push(node)[m]);
            assert(out2[out.len() as int] == idx);
        } else {
            assert(fin[m] == sub[m]);
            if sub[m].parent == Some(idx) {
                assert(fin[l].kind == KindView::Dir(children));
            } else if let Some(pp) = sub[m].parent {
                assert(listed(sub, m));
                if pp == parent {
                    assert(sub[parent.raw as int] == ns.push(node)[parent.raw as int]);
                    assert(!Seq::<Idx>::empty().contains(Idx { raw: m as u32 }));
                } else {
                    assert(fin[pp.raw as int] == sub[pp.raw as int]);
                }
            }
        }
    }
}

/// Reads one directory listing at the cursor, allocating every entry under
/// `parent`, and returns the handles of the directory's direct children.
#[verifier::spinoff_prover]
#[verifier::rlimit(40)]
fn read_dir(
    cursor: &mut Cursor<'_>,
    blob_len: usize,
    nodes: &mut la_arena::Arena<Node>,
    parent: Idx,
) -> (r: Result<Vec<Idx>>)
    requires
        old(cursor).position() <= old(cursor).data().len() == blob_len,
        arena_nodes(*old(nodes)).len() <= u32::MAX + 1,
        (parent.raw as int) < arena_nodes(*old(nodes)).len(),
        arena_nodes(*old(nodes))[parent.raw as int].kind == KindView::Dir(Seq::empty()),
        tree_wf(arena_nodes(*old(nodes))),
    ensures
        final(cursor).data() == old(cursor).data(),
        final(cursor).position() <= final(cursor).data().len(),
        match r {
            Ok(children) => {
                &&& dir_at(
                    old(cursor).data(),
                    old(cursor).position(),
                    arena_nodes(*old(nodes)),
                    parent,
                ) == DirScan::Done(
                    Listing {
                        end: final(cursor).position(),
                        nodes: arena_nodes(*final(nodes)),
                        children: children@,
                    },
                )
                &&& old(cursor).position() < final(cursor).position()
                &&& arena_nodes(*final(nodes)).len() <= u32::MAX + 1
                &&& tree_wf(arena_nodes(*final(nodes)))
                &&& arena_nodes(*old(nodes)).len() <= arena_nodes(*final(nodes)).len()
                &&& forall|k: int|
                    0 <= k < children@.len() ==> arena_nodes(*old(nodes)).len() <= (
                    #[trigger] children@[k]).raw < arena_nodes(*final(nodes)).len()
                &&& forall|k: int|
                    0 <= k < children@.len() ==> arena_nodes(*final(nodes))[(
                    #[trigger] children@[k]).raw as int].parent == Some(parent)
                &&& forall|i: int|
                    0 <= i < arena_nodes(*old(nodes)).len() ==> #[trigger] arena_nodes(
                        *final(nodes),
                    )[i] == arena_nodes(*old(nodes))[i]
                &&& forall|i: int|
                    arena_nodes(*old(nodes)).len() <= i < arena_nodes(*final(nodes)).len() ==> (
                    #[trigger] arena_nodes(*final(nodes))[i]).parent is Some
                &&& listing_tracked(
                    arena_nodes(*final(nodes)),
                    arena_nodes(*old(nodes)).len() as int,
                    parent,
                    children@,
                )
                &&& increasing(children@)
            },
            Err(e) => dir_error(
                e,
                dir_at(old(cursor).data(), old(cursor).position(), arena_nodes(*old(nodes)), parent),
                old(cursor).data(),
            ),
        },
    decreases old(cursor).data().len() - old(cursor).position(),
{
    let ghost blob = cursor.data();
    let ghost p0 = cursor.position();
    let ghost nodes0 = arena_nodes(*nodes);
    let count = cursor.be32()?;
    let ghost total = be_u32(blob.subrange(p0, p0 + 4));
    assert(dir_at(blob, p0, nodes0, parent) == entries_at(blob, p0 + 4, nodes0, parent, total, Seq::empty()));

    let cap = if (count as usize) < MAX_PREALLOC {
        count as usize
    } else {
        MAX_PREALLOC
    };
    let mut out: Vec<Idx> = Vec::with_capacity(cap);
    let mut i: u32 = 0;
    while i < count
        invariant
            i <= count,
            count == total,
            blob == old(cursor).data(),
            p0 == old(cursor).position(),
            nodes0 == arena_nodes(*old(nodes)),
            dir_at(blob, p0, nodes0, parent) == entries_at(blob, p0 + 4, nodes0, parent, total, Seq::empty()),
            cursor.data() == blob,
            p0 + 4 <= cursor.position() <= blob.len() == blob_len,
            arena_nodes(*nodes).len() <= u32::MAX + 1,
            (parent.raw as int) < nodes0.len() <= arena_nodes(*nodes).len(),
            tree_wf(arena_nodes(*nodes)),
            forall|k: int|
                0 <= k < out@.len() ==> nodes0.len() <= (#[trigger] out@[k]).raw < arena_nodes(
                    *nodes,
                ).len(),
            forall|k: int|
                0 <= k < out@.len() ==> arena_nodes(*nodes)[(#[trigger] out@[k]).raw as int].parent
                    == Some(parent),
            forall|i: int|
                0 <= i < nodes0.len() ==> #[trigger] arena_nodes(*nodes)[i] == nodes0[i],
            forall|i: int|
                nodes0.len() <= i < arena_nodes(*nodes).len() ==> (#[trigger] arena_nodes(
                    *nodes,
                )[i]).parent is Some,
            listing_tracked(arena_nodes(*nodes), nodes0.len() as int, parent, out@),
            increasing(out@),
            nodes0[parent.raw as int].kind == KindView::Dir(Seq::empty()),
            entries_at(blob, p0 + 4, nodes0, parent, total, Seq::empty()) == entries_at(
                blob,
                cursor.position(),
                arena_nodes(*nodes),
                parent,
                count - i,
                out@,
            ),
        decreases count - i,
    {
        let ghost p = cursor.position();
        let ghost ns = arena_nodes(*nodes);
        if arena_len(nodes) > u32::MAX as usize {
            // Every `u32` handle names a node already.
            return Err(Error::Desync { got: cursor.pos(), len: blob_len });
        }
        let nlen = cursor.u8()?;
        let raw_name = cursor.take(nlen as usize)?;
        let name = lossy_name(raw_name);
        cursor.take(1)?;  // trailing NUL
        let mtime = cursor.be64i()?;
        let nblocks = cursor.be32i()?;
        let ghost q = p + 1 + nlen;
        assert(raw_name@ == blob.subrange(p + 1, p + 1 + nlen));

        if nblocks == -1 {
            let ghost node = NodeView {
                name: name@,
                mtime,
                parent: Some(parent),
                kind: KindView::Dir(Seq::empty()),
            };
            proof {
                assert(node_wf(ns.push(node), ns.len() as int));
                lemma_wf_push(ns, node);
            }
            let idx = arena_alloc(
                nodes,
                Node { name, mtime, parent: Some(parent), kind: Kind::Dir(Vec::new()) },
            );
            assert(arena_nodes(*nodes) == ns.push(node));
            // Subdirectories are inlined here, mid-list, before the parent's
            // next sibling.
            let children = read_dir(cursor, blob_len, nodes, idx)?;
            let ghost sub = arena_nodes(*nodes);
            let ghost updated = NodeView {
                name: sub[idx.raw as int].name,
                mtime: sub[idx.raw as int].mtime,
                parent: sub[idx.raw as int].parent,
                kind: KindView::Dir(children@),
            };
            proof {
                assert(node_wf(sub.update(idx.raw as int, updated), idx.raw as int));
                lemma_wf_update(sub, idx.raw as int, updated);
            }
            arena_set_kind(nodes, idx, Kind::Dir(children));
            assert(arena_nodes(*nodes) == with_children(sub, idx, children@));
            proof {
                assert(ns[parent.raw as int] == nodes0[parent.raw as int]);
                lemma_tracked_subdir(ns, node, sub, children@, nodes0.len() as int, parent, out@);
                lemma_increasing_push(out@, idx);
            }
            out.push(idx);
        } else {
            let ghost bstart = cursor.position();
            let bcap = if nblocks < 0 {
                0
            } else if (nblocks as usize) < MAX_PREALLOC {
                nblocks as usize
            } else {
                MAX_PREALLOC
            };
            let mut blocks: Vec<Block> = Vec::with_capacity(bcap);
            let mut k: i32 = 0;
            proof {
                match blocks_at(blob, bstart, nblocks as int) {
                    Scan::Done(rest) => {
                        assert(blocks@ + rest =~= rest);
                    },
                    Scan::Short { .. } => {},
                }
            }
            #[verifier::loop_isolation(false)]
            while k < nblocks
                invariant
                    0 <= k <= nblocks || (k == 0 && nblocks < 0),
                    cursor.data() == blob,
                    cursor.position() <= blob.len(),
                    cursor.position() == bstart + 12 * k,
                    blocks@.len() == k,
                    match blocks_at(blob, cursor.position(), nblocks - k) {
                        Scan::Done(rest) => blocks_at(blob, bstart, nblocks as int) == Scan::Done(
                            blocks@ + rest,
                        ),
                        Scan::Short { pos, need } => blocks_at(blob, bstart, nblocks as int)
                            == Scan::Short::<Seq<Block>> { pos, need },
                    },
                decreases nblocks - k,
            {
                let ghost b = cursor.position();
                let page = cursor.be32i()?;
                let offset = cursor.be32i()?;
                let size = cursor.be32i()?;
                let block = Block { page, offset, size };
                proof {
                    assert(block == block_at(blob, b));
                    assert(blocks@.push(block) =~= blocks@ + seq![block]);
                    match blocks_at(blob, b + 12, nblocks - k - 1) {
                        Scan::Done(rest) => {
                            assert(blocks@ + (seq![block] + rest) =~= blocks@.push(block) + rest);
                        },
                        Scan::Short { .. } => {},
                    }
                }
                blocks.push(block);
                k = k + 1;
            }
            assert(blocks@ + Seq::<Block>::empty() =~= blocks@);
            let ghost node = NodeView {
                name: name@,
                mtime,
                parent: Some(parent),
                kind: KindView::File(blocks@),
            };
            proof {
                assert(node_wf(ns.push(node), ns.len() as int));
                lemma_wf_push(ns, node);
            }
            let idx = arena_alloc(nodes, Node { name, mtime, parent: Some(parent), kind: Kind::File(blocks) });
            proof {
                lemma_tracked_push(ns, node, nodes0.len() as int, parent, out@);
                lemma_increasing_push(out@, idx);
            }
            out.push(idx);
        }
        i = i + 1;
    }
    Ok(out)
}

/// Byte-lexicographic order, as `Ord` orders strings.
pub open spec fn bytes_lt(a: Seq<u8>, b: Seq<u8>) -> bool
    decreases a.len(),
{
    if a.len() == 0 {
        b.len() > 0
    } else if b.len() == 0 {
        false
    } else if a[0] != b[0] {
        a[0] < b[0]
    } else {
        bytes_lt(a.drop_first(), b.drop_first())
    }
}

/// Nothing sorts strictly before itself.
pub proof fn lemma_bytes_lt_irreflexive(a: Seq<u8>)
    ensures
        !bytes_lt(a, a),
    decreases a.len(),
{
    if a.len() > 0 {
        lemma_bytes_lt_irreflexive(a.drop_first());
    }
}

/// A proper prefix sorts strictly before every longer string it begins, as
/// `Ord` orders byte strings and `String`s.
pub proof fn lemma_bytes_lt_prefix(a: Seq<u8>, s: Seq<u8>)
    requires
        s.len() > 0,
    ensures
        bytes_lt(a, a + s),
        !bytes_lt(a + s, a),
    decreases a.len(),
{
    if a.len() > 0 {
        assert((a + s).drop_first() =~= a.drop_first() + s);
        assert((a + s)[0] == a[0]);
        lemma_bytes_lt_prefix(a.drop_first(), s);
    } else {
        assert(a + s =~= s);
    }
}

/// Where two strings first differ, the smaller byte sorts first, whatever
/// follows, as `Ord` orders byte strings and `String`s.
pub proof fn lemma_bytes_lt_first_difference(a: Seq<u8>, b: Seq<u8>, k: int)
    requires
        0 <= k < a.len(),
        k < b.len(),
        a.take(k) == b.take(k),
        a[k] < b[k],
    ensures
        bytes_lt(a, b),
        !bytes_lt(b, a),
    decreases k,
{
    if k > 0 {
        assert(a[0] == a.take(k)[0] && b[0] == b.take(k)[0]);
        assert(a.drop_first().take(k - 1) =~= a.take(k).drop_first());
        assert(b.drop_first().take(k - 1) =~= b.take(k).drop_first());
        lemma_bytes_lt_first_difference(a.drop_first(), b.drop_first(), k - 1);
    }
}

/// Whether the node at `a` sorts strictly before the node at `b` by name.
pub open spec fn name_before(nodes: Seq<NodeView>, a: Idx, b: Idx) -> bool {
    bytes_lt(encode_utf8(nodes[a.raw as int].name), encode_utf8(nodes[b.raw as int].name))
}

/// `sorted` with `x` inserted after every element whose name does not sort
/// after `x`'s.
pub open spec fn insert_by_name(nodes: Seq<NodeView>, sorted: Seq<Idx>, x: Idx) -> Seq<Idx>
    decreases sorted.len(),
{
    if sorted.len() == 0 {
        seq![x]
    } else if name_before(nodes, x, sorted.last()) {
        insert_by_name(nodes, sorted.drop_last(), x).push(sorted.last())
    } else {
        sorted.push(x)
    }
}

/// The stable sort of `s` by name.
pub open spec fn sort_by_name(nodes: Seq<NodeView>, s: Seq<Idx>) -> Seq<Idx>
    decreases s.len(),
{
    if s.len() == 0 {
        s
    } else {
        insert_by_name(nodes, sort_by_name(nodes, s.drop_last()), s.last())
    }
}

proof fn lemma_insert_members(nodes: Seq<NodeView>, sorted: Seq<Idx>, x: Idx)
    ensures
        insert_by_name(nodes, sorted, x).len() == sorted.len() + 1,
        forall|k: int|
            0 <= k < insert_by_name(nodes, sorted, x).len() ==> #[trigger] insert_by_name(
                nodes,
                sorted,
                x,
            )[k] == x || sorted.contains(insert_by_name(nodes, sorted, x)[k]),
    decreases sorted.len(),
{
    if sorted.len() > 0 && name_before(nodes, x, sorted.last()) {
        lemma_insert_members(nodes, sorted.drop_last(), x);
        let ins = insert_by_name(nodes, sorted.drop_last(), x);
        assert forall|k: int| 0 <= k < ins.push(sorted.last()).len() implies #[trigger] ins.push(
            sorted.last(),
        )[k] == x || sorted.contains(ins.push(sorted.last())[k]) by {
            if k < ins.len() {
                if ins[k] != x {
                    let j = choose|j: int| 0 <= j < sorted.drop_last().len() && sorted.drop_last()[j] == ins[k];
                    assert(sorted[j] == ins[k]);
                }
            } else {
                assert(sorted[sorted.len() - 1] == sorted.last());
            }
        }
    } else if sorted.len() > 0 {
        assert forall|k: int| 0 <= k < sorted.push(x).len() implies #[trigger] sorted.push(x)[k]
            == x || sorted.contains(sorted.push(x)[k]) by {
            if k < sorted.len() {
                assert(sorted[k] == sorted.push(x)[k]);
            }
        }
    }
}

proof fn lemma_bytes_lt_asym(a: Seq<u8>, b: Seq<u8>)
    ensures
        bytes_lt(a, b) ==> !bytes_lt(b, a),
    decreases a.len(),
{
    if a.len() > 0 && b.len() > 0 && a[0] == b[0] {
        lemma_bytes_lt_asym(a.drop_first(), b.drop_first());
    }
}

proof fn lemma_bytes_lt_trans(a: Seq<u8>, b: Seq<u8>, c: Seq<u8>)
    ensures
        bytes_lt(a, b) && bytes_lt(b, c) ==> bytes_lt(a, c),
    decreases a.len(),
{
    if a.len() > 0 && b.len() > 0 && c.len() > 0 && a[0] == b[0] && b[0] == c[0] {
        lemma_bytes_lt_trans(a.drop_first(), b.drop_first(), c.drop_first());
    }
}

proof fn lemma_bytes_lt_total(a: Seq<u8>, b: Seq<u8>)
    ensures
        !bytes_lt(a, b) && !bytes_lt(b, a) ==> a == b,
    decreases a.len(),
{
    if a.len() > 0 && b.len() > 0 && a[0] == b[0] {
        lemma_bytes_lt_total(a.drop_first(), b.drop_first());
        if !bytes_lt(a, b) && !bytes_lt(b, a) {
            assert(a =~= seq![a[0]] + a.drop_first());
            assert(b =~= seq![b[0]] + b.drop_first());
        }
    } else if a.len() == 0 && b.len() == 0 {
        assert(a =~= b);
    }
}

/// Whether no handle of `s` has a name whose UTF-8 bytes sort strictly
/// before those of a handle ahead of it.
pub open spec fn ordered_by_name(nodes: Seq<NodeView>, s: Seq<Idx>) -> bool {
    forall|a: int, b: int|
        0 <= a < b < s.len() ==> !bytes_lt(
            encode_utf8(nodes[(#[trigger] s[b]).raw as int].name),
            encode_utf8(nodes[(#[trigger] s[a]).raw as int].name),
        )
}

proof fn lemma_insert_ordered(nodes: Seq<NodeView>, sorted: Seq<Idx>, x: Idx)
    requires
        ordered_by_name(nodes, sorted),
    ensures
        ordered_by_name(nodes, insert_by_name(nodes, sorted, x)),
    decreases sorted.len(),
{
    let ins = insert_by_name(nodes, sorted, x);
    let name = |i: Idx| encode_utf8(nodes[i.raw as int].name);
    if sorted.len() == 0 {
    } else if name_before(nodes, x, sorted.last()) {
        let d = sorted.drop_last();
        let last = sorted.last();
        assert forall|a: int, b: int| 0 <= a < b < d.len() implies !name_before(nodes, #[trigger] d[b], #[trigger] d[a]) by {
            assert(d[a] == sorted[a] && d[b] == sorted[b]);
        }
        lemma_insert_ordered(nodes, d, x);
        lemma_insert_members(nodes, d, x);
        let inner = insert_by_name(nodes, d, x);
        assert(ins == inner.push(last));
        lemma_bytes_lt_asym(name(x), name(last));
        assert forall|a: int, b: int| 0 <= a < b < ins.len() implies !name_before(nodes, #[trigger] ins[b], #[trigger] ins[a]) by {
            assert(ins[a] == inner[a]);
            if b < inner.len() {
                assert(ins[b] == inner[b]);
            } else {
                if inner[a] != x {
                    assert(d.contains(inner[a]));
                    let j = choose|j: int| 0 <= j < d.len() && d[j] == inner[a];
                    assert(sorted[j] == inner[a]);
                    assert(sorted[sorted.len() - 1] == last);
                }
            }
        }
    } else {
        let last = sorted.last();
        assert(ins == sorted.push(x));
        assert forall|a: int, b: int| 0 <= a < b < ins.len() implies !name_before(nodes, #[trigger] ins[b], #[trigger] ins[a]) by {
            assert(ins[a] == sorted[a]);
            if b < sorted.len() {
                assert(ins[b] == sorted[b]);
            } else {
                let y = sorted[a];
                if a < sorted.len() - 1 {
                    assert(sorted[sorted.len() - 1] == last);
                    assert(!name_before(nodes, last, y));
                    lemma_bytes_lt_total(name(y), name(last));
                    lemma_bytes_lt_trans(name(x), name(y), name(last));
                }
            }
        }
    }
}

/// Sorting by name orders the handles by their names' bytes: none comes
/// after one whose name sorts strictly after its own.
pub proof fn lemma_sort_ordered(nodes: Seq<NodeView>, s: Seq<Idx>)
    ensures
        ordered_by_name(nodes, sort_by_name(nodes, s)),
    decreases s.len(),
{
    if s.len() > 0 {
        lemma_sort_ordered(nodes, s.drop_last());
        lemma_insert_ordered(nodes, sort_by_name(nodes, s.drop_last()), s.last());
    }
}

/// Sorting by name neither adds nor drops handles.
pub proof fn lemma_sort_members(nodes: Seq<NodeView>, s: Seq<Idx>)
    ensures
        sort_by_name(nodes, s).len() == s.len(),
        forall|k: int|
            0 <= k < sort_by_name(nodes, s).len() ==> s.contains(
                #[trigger] sort_by_name(nodes, s)[k],
            ),
    decreases s.len(),
{
    if s.len() > 0 {
        lemma_sort_members(nodes, s.drop_last());
        let inner = sort_by_name(nodes, s.drop_last());
        lemma_insert_members(nodes, inner, s.last());
        assert forall|k: int| 0 <= k < sort_by_name(nodes, s).len() implies s.contains(
            #[trigger] sort_by_name(nodes, s)[k],
        ) by {
            let y = insert_by_name(nodes, inner, s.last())[k];
            if y == s.last() {
                assert(s[s.len() - 1] == y);
            } else {
                assert(inner.contains(y));
                let j = choose|j: int| 0 <= j < inner.len() && inner[j] == y;
                assert(s.drop_last().contains(inner[j]));
                let m = choose|m: int| 0 <= m < s.drop_last().len() && s.drop_last()[m] == y;
                assert(s[m] == y);
            }
        }
    }
}

/// The path of a child named `name` under the directory at `prefix`.
pub open spec fn child_path(prefix: Seq<char>, name: Seq<char>) -> Seq<char> {
    if prefix.len() == 0 {
        name
    } else {
        prefix + seq!['/'] + name
    }
}

/// Every node under the directory at `at`, depth-first, each with its full
/// path, children visited in name order.
pub open spec fn walk_from(nodes: Seq<NodeView>, at: Idx, prefix: Seq<char>) -> Seq<
    (Seq<char>, Idx),
>
    decreases nodes.len() - at.raw, 1int, 0int,
{
    if at.raw >= nodes.len() {
        Seq::empty()
    } else {
        match nodes[at.raw as int].kind {
            KindView::Dir(children) => walk_children(
                nodes,
                sort_by_name(nodes, children),
                prefix,
                at,
            ),
            KindView::File(_) => Seq::empty(),
        }
    }
}

/// The walk over the children `sorted` of the directory at `parent`.
pub open spec fn walk_children(
    nodes: Seq<NodeView>,
    sorted: Seq<Idx>,
    prefix: Seq<char>,
    parent: Idx,
) -> Seq<(Seq<char>, Idx)>
    decreases nodes.len() - parent.raw, 0int, sorted.len(),
{
    if sorted.len() == 0 {
        Seq::empty()
    } else {
        let c = sorted[0];
        if c.raw <= parent.raw || c.raw >= nodes.len() {
            Seq::empty()
        } else {
            let path = child_path(prefix, nodes[c.raw as int].name);
            let below = if nodes[c.raw as int].kind is Dir {
                walk_from(nodes, c, path)
            } else {
                Seq::empty()
            };
            seq![(path, c)] + below + walk_children(nodes, sorted.drop_first(), prefix, parent)
        }
    }
}

proof fn lemma_insert_contains(nodes: Seq<NodeView>, sorted: Seq<Idx>, x: Idx)
    ensures
        insert_by_name(nodes, sorted, x).contains(x),
        forall|y: Idx| sorted.contains(y) ==> #[trigger] insert_by_name(nodes, sorted, x).contains(y),
    decreases sorted.len(),
{
    let ins = insert_by_name(nodes, sorted, x);
    if sorted.len() == 0 {
        assert(ins[0] == x);
    } else if name_before(nodes, x, sorted.last()) {
        let inner = insert_by_name(nodes, sorted.drop_last(), x);
        lemma_insert_contains(nodes, sorted.drop_last(), x);
        assert(ins == inner.push(sorted.last()));
        let j = choose|j: int| 0 <= j < inner.len() && inner[j] == x;
        assert(ins[j] == x);
        assert forall|y: Idx| sorted.contains(y) implies #[trigger] ins.contains(y) by {
            let a = choose|a: int| 0 <= a < sorted.len() && sorted[a] == y;
            if a == sorted.len() - 1 {
                assert(ins[inner.len() as int] == y);
            } else {
                assert(sorted.drop_last()[a] == y);
                assert(sorted.drop_last().contains(y));
                assert(inner.contains(y));
                let b = choose|b: int| 0 <= b < inner.len() && inner[b] == y;
                assert(ins[b] == y);
            }
        }
    } else {
        assert(ins == sorted.push(x));
        assert(ins[sorted.len() as int] == x);
        assert forall|y: Idx| sorted.contains(y) implies #[trigger] ins.contains(y) by {
            let a = choose|a: int| 0 <= a < sorted.len() && sorted[a] == y;
            assert(ins[a] == y);
        }
    }
}

/// Sorting by name drops no handle.
pub proof fn lemma_sort_keeps(nodes: Seq<NodeView>, s: Seq<Idx>)
    ensures
        forall|y: Idx| s.contains(y) ==> #[trigger] sort_by_name(nodes, s).contains(y),
    decreases s.len(),
{
    if s.len() > 0 {
        lemma_sort_keeps(nodes, s.drop_last());
        let inner = sort_by_name(nodes, s.drop_last());
        lemma_insert_contains(nodes, inner, s.last());
        assert forall|y: Idx| s.contains(y) implies #[trigger] sort_by_name(nodes, s).contains(y) by {
            let a = choose|a: int| 0 <= a < s.len() && s[a] == y;
            if a < s.len() - 1 {
                assert(s.drop_last()[a] == y);
                assert(s.drop_last().contains(y));
                assert(inner.contains(y));
            }
        }
    }
}

/// Whether node `m` lies under the directory `d`: its chain of parents,
/// each before it in the arena, reaches `d`.
pub open spec fn descends(nodes: Seq<NodeView>, m: int, d: Idx) -> bool
    decreases m,
{
    if 0 <= m < nodes.len() {
        match nodes[m].parent {
            None => false,
            Some(q) => q == d || (q.raw < m && descends(nodes, q.raw as int, d)),
        }
    } else {
        false
    }
}

/// The handle of the node at position `m`.
pub open spec fn handle(m: int) -> Idx {
    Idx { raw: m as u32 }
}

/// Whether entry `k` of the walk `w` is node `c`, with everything under `c`,
/// walked from that entry's path, in `w` too.
pub open spec fn walk_entry(nodes: Seq<NodeView>, w: Seq<(Seq<char>, Idx)>, k: int, c: Idx) -> bool {
    &&& 0 <= k < w.len()
    &&& w[k].1 == c
    &&& nodes[c.raw as int].kind is Dir ==> forall|e: (Seq<char>, Idx)|
        walk_from(nodes, c, w[k].0).contains(e) ==> w.contains(e)
}

/// A child `c` of `parent` found in `sorted` appears in the walk over
/// `sorted`, followed there by everything under it.
proof fn lemma_walk_children_has(
    nodes: Seq<NodeView>,
    sorted: Seq<Idx>,
    prefix: Seq<char>,
    parent: Idx,
    c: Idx,
)
    requires
        sorted.contains(c),
        forall|k: int| 0 <= k < sorted.len() ==> parent.raw < (#[trigger] sorted[k]).raw < nodes.len(),
    ensures
        exists|k: int| #[trigger] walk_entry(nodes, walk_children(nodes, sorted, prefix, parent), k, c),
    decreases sorted.len(),
{
    let w = walk_children(nodes, sorted, prefix, parent);
    let c0 = sorted[0];
    let path = child_path(prefix, nodes[c0.raw as int].name);
    let below = if nodes[c0.raw as int].kind is Dir {
        walk_from(nodes, c0, path)
    } else {
        Seq::empty()
    };
    let rest = walk_children(nodes, sorted.drop_first(), prefix, parent);
    assert(parent.raw < sorted[0].raw < nodes.len());
    assert(w == seq![(path, c0)] + below + rest);
    if c0 == c {
        assert(w[0] == (path, c));
        assert forall|e: (Seq<char>, Idx)|
            nodes[c.raw as int].kind is Dir && walk_from(nodes, c, path).contains(e) implies w.contains(e) by {
            let a = choose|a: int| 0 <= a < below.len() && below[a] == e;
            assert(w[1 + a] == e);
        }
        assert(walk_entry(nodes, w, 0, c));
    } else {
        let a = choose|a: int| 0 <= a < sorted.len() && sorted[a] == c;
        assert(a > 0);
        assert(sorted.drop_first()[a - 1] == c);
        assert forall|k: int| 0 <= k < sorted.drop_first().len() implies parent.raw < (
        #[trigger] sorted.drop_first()[k]).raw < nodes.len() by {
            assert(sorted.drop_first()[k] == sorted[k + 1]);
        }
        lemma_walk_children_has(nodes, sorted.drop_first(), prefix, parent, c);
        let k = choose|k: int| #[trigger] walk_entry(nodes, rest, k, c);
        let off = 1 + below.len();
        assert(w[off + k] == rest[k]);
        assert forall|e: (Seq<char>, Idx)|
            nodes[c.raw as int].kind is Dir && walk_from(nodes, c, w[off + k].0).contains(e) implies w.contains(e) by {
            assert(rest.contains(e));
            let b = choose|b: int| 0 <= b < rest.len() && rest[b] == e;
            assert(w[off + b] == e);
        }
        assert(walk_entry(nodes, w, off + k, c));
    }
}

/// A child of a directory appears in the walk from it, followed there by
/// everything under it.
proof fn lemma_walk_has_child(nodes: Seq<NodeView>, m: int, d: Idx, prefix: Seq<char>)
    requires
        tree_wf(nodes),
        all_listed(nodes),
        0 <= m < nodes.len() <= u32::MAX + 1,
        nodes[m].parent == Some(d),
    ensures
        exists|k: int| #[trigger] walk_entry(nodes, walk_from(nodes, d, prefix), k, handle(m)),
{
    assert(listed(nodes, m));
    assert(node_wf(nodes, d.raw as int));
    let mi = handle(m);
    match nodes[d.raw as int].kind {
        KindView::Dir(children) => {
            lemma_sort_keeps(nodes, children);
            lemma_sort_members(nodes, children);
            let sorted = sort_by_name(nodes, children);
            assert(sorted.contains(mi));
            assert forall|k: int| 0 <= k < sorted.len() implies d.raw < (#[trigger] sorted[k]).raw
                < nodes.len() by {
                assert(children.contains(sorted[k]));
            }
            assert(walk_from(nodes, d, prefix) == walk_children(nodes, sorted, prefix, d));
            lemma_walk_children_has(nodes, sorted, prefix, d, mi);
        },
        KindView::File(_) => {},
    }
}

/// Every node under a directory appears in the walk from it, followed
/// there by everything under it.
pub proof fn lemma_walk_has_descendant(nodes: Seq<NodeView>, m: int, d: Idx, prefix: Seq<char>)
    requires
        tree_wf(nodes),
        all_listed(nodes),
        descends(nodes, m, d),
        nodes.len() <= u32::MAX + 1,
    ensures
        exists|k: int| #[trigger] walk_entry(nodes, walk_from(nodes, d, prefix), k, handle(m)),
    decreases m,
{
    let q = nodes[m].parent->0;
    let mi = handle(m);
    if q == d {
        lemma_walk_has_child(nodes, m, d, prefix);
    } else {
        lemma_walk_has_descendant(nodes, q.raw as int, d, prefix);
        let w = walk_from(nodes, d, prefix);
        assert(handle(q.raw as int) == q);
        let k = choose|k: int| #[trigger] walk_entry(nodes, w, k, q);
        assert(listed(nodes, m));
        lemma_walk_has_child(nodes, m, q, w[k].0);
        let wq = walk_from(nodes, q, w[k].0);
        let j = choose|j: int| #[trigger] walk_entry(nodes, wq, j, mi);
        assert(wq.contains(wq[j]));
        assert(w.contains(wq[j]));
        let i = choose|i: int| 0 <= i < w.len() && w[i] == wq[j];
        assert forall|e: (Seq<char>, Idx)|
            nodes[m].kind is Dir && walk_from(nodes, mi, w[i].0).contains(e) implies w.contains(e) by {
            assert(wq.contains(e));
        }
        assert(walk_entry(nodes, w, i, mi));
    }
}

/// Every node but the root lies under the root.
pub proof fn lemma_under_root(nodes: Seq<NodeView>, m: int)
    requires
        tree_wf(nodes),
        rooted(nodes),
        all_listed(nodes),
        1 <= m < nodes.len(),
    ensures
        descends(nodes, m, handle(0)),
    decreases m,
{
    let q = nodes[m].parent->0;
    assert(nodes[m].parent is Some);
    assert(listed(nodes, m));
    assert(node_wf(nodes, q.raw as int));
    if q.raw != 0 {
        lemma_under_root(nodes, q.raw as int);
    }
}

/// Walking a parsed tree from its root yields every node but the root.
pub proof fn lemma_walk_yields_every_node(nodes: Seq<NodeView>, m: int)
    requires
        tree_wf(nodes),
        rooted(nodes),
        all_listed(nodes),
        1 <= m < nodes.len() <= u32::MAX + 1,
    ensures
        exists|k: int|
            0 <= k < walk_from(nodes, handle(0), Seq::empty()).len() && (#[trigger] walk_from(
                nodes,
                handle(0),
                Seq::empty(),
            )[k]).1 == handle(m),
{
    lemma_under_root(nodes, m);
    lemma_walk_has_descendant(nodes, m, handle(0), Seq::empty());
    let k = choose|k: int| #[trigger] walk_entry(nodes, walk_from(nodes, handle(0), Seq::empty()), k, handle(m));
    assert(walk_from(nodes, handle(0), Seq::empty())[k].1 == handle(m));
}

/// Inserting a handle that is not yet there keeps a sequence free of
/// duplicates.
proof fn lemma_insert_unique(nodes: Seq<NodeView>, sorted: Seq<Idx>, x: Idx)
    requires
        sorted.no_duplicates(),
        !sorted.contains(x),
    ensures
        insert_by_name(nodes, sorted, x).no_duplicates(),
    decreases sorted.len(),
{
    let ins = insert_by_name(nodes, sorted, x);
    if sorted.len() == 0 {
    } else if name_before(nodes, x, sorted.last()) {
        let d = sorted.drop_last();
        assert forall|a: int, b: int| 0 <= a < b < d.len() implies d[a] != d[b] by {
            assert(d[a] == sorted[a] && d[b] == sorted[b]);
        }
        assert(!d.contains(x)) by {
            if d.contains(x) {
                let a = choose|a: int| 0 <= a < d.len() && d[a] == x;
                assert(sorted[a] == x);
            }
        }
        lemma_insert_unique(nodes, d, x);
        lemma_insert_members(nodes, d, x);
        let inner = insert_by_name(nodes, d, x);
        let last = sorted.last();
        assert forall|a: int| 0 <= a < inner.len() implies #[trigger] inner[a] != last by {
            if inner[a] != x {
                assert(d.contains(inner[a]));
                let j = choose|j: int| 0 <= j < d.len() && d[j] == inner[a];
                assert(sorted[j] == d[j]);
            } else {
                assert(sorted[sorted.len() - 1] == last);
            }
        }
        assert(ins == inner.push(last));
        assert forall|a: int, b: int| 0 <= a < b < ins.len() implies ins[a] != ins[b] by {
            assert(ins[a] == inner[a]);
            if b < inner.len() {
                assert(ins[b] == inner[b]);
            }
        }
    } else {
        assert(ins == sorted.push(x));
        assert forall|a: int, b: int| 0 <= a < b < ins.len() implies ins[a] != ins[b] by {
            assert(ins[a] == sorted[a]);
            if b < sorted.len() {
                assert(ins[b] == sorted[b]);
            }
        }
    }
}

/// Sorting by name keeps a sequence free of duplicates.
pub proof fn lemma_sort_unique(nodes: Seq<NodeView>, s: Seq<Idx>)
    requires
        s.no_duplicates(),
    ensures
        sort_by_name(nodes, s).no_duplicates(),
    decreases s.len(),
{
    if s.len() > 0 {
        let d = s.drop_last();
        assert forall|a: int, b: int| 0 <= a < b < d.len() implies d[a] != d[b] by {
            assert(d[a] == s[a] && d[b] == s[b]);
        }
        lemma_sort_unique(nodes, d);
        lemma_sort_members(nodes, d);
        let inner = sort_by_name(nodes, d);
        assert(!inner.contains(s.last())) by {
            if inner.contains(s.last()) {
                let a = choose|a: int| 0 <= a < inner.len() && inner[a] == s.last();
                assert(d.contains(inner[a]));
                let j = choose|j: int| 0 <= j < d.len() && d[j] == inner[a];
                assert(s[j] == s[s.len() - 1]);
            }
        }
        lemma_insert_unique(nodes, inner, s.last());
    }
}

/// A node lies after every directory it lies under.
proof fn lemma_descends_above(nodes: Seq<NodeView>, m: int, d: Idx)
    requires
        tree_wf(nodes),
        all_listed(nodes),
        descends(nodes, m, d),
    ensures
        d.raw < m < nodes.len(),
    decreases m,
{
    let q = nodes[m].parent->0;
    assert(listed(nodes, m));
    assert(node_wf(nodes, q.raw as int));
    match nodes[q.raw as int].kind {
        KindView::Dir(children) => {
            let k = choose|k: int| 0 <= k < children.len() && children[k] == handle(m);
            assert(q.raw < children[k].raw);
        },
        KindView::File(_) => {},
    }
    if q != d {
        lemma_descends_above(nodes, q.raw as int, d);
    }
}

/// What lies under a child of `d` lies under `d`.
proof fn lemma_descends_through(nodes: Seq<NodeView>, m: int, c: Idx, d: Idx)
    requires
        tree_wf(nodes),
        all_listed(nodes),
        descends(nodes, m, c),
        nodes[c.raw as int].parent == Some(d),
        c.raw < nodes.len(),
    ensures
        descends(nodes, m, d),
    decreases m,
{
    let q = nodes[m].parent->0;
    lemma_descends_above(nodes, m, c);
    if q != c {
        lemma_descends_above(nodes, q.raw as int, c);
        lemma_descends_through(nodes, q.raw as int, c, d);
    } else {
        lemma_descends_above(nodes, m, q);
        assert(descends(nodes, c.raw as int, d));
    }
}

/// Two directories a node lies under are one, or one lies under the other.
proof fn lemma_descends_chain(nodes: Seq<NodeView>, m: int, a: Idx, b: Idx)
    requires
        descends(nodes, m, a),
        descends(nodes, m, b),
    ensures
        a == b || descends(nodes, a.raw as int, b) || descends(nodes, b.raw as int, a),
    decreases m,
{
    let q = nodes[m].parent->0;
    if q != a && q != b {
        lemma_descends_chain(nodes, q.raw as int, a, b);
    } else if q == a && q != b {
        assert(handle(q.raw as int) == q);
    } else if q == b && q != a {
        assert(handle(q.raw as int) == q);
    }
}

/// Of two children of one directory, neither lies under the other.
proof fn lemma_siblings_apart(nodes: Seq<NodeView>, x: Idx, y: Idx, p: Idx)
    requires
        tree_wf(nodes),
        all_listed(nodes),
        x.raw < nodes.len(),
        y.raw < nodes.len(),
        nodes[x.raw as int].parent == Some(p),
        nodes[y.raw as int].parent == Some(p),
    ensures
        !descends(nodes, x.raw as int, y),
{
    if descends(nodes, x.raw as int, y) {
        assert(listed(nodes, y.raw as int));
        assert(node_wf(nodes, p.raw as int));
        match nodes[p.raw as int].kind {
            KindView::Dir(children) => {
                let k = choose|k: int| 0 <= k < children.len() && children[k] == handle(y.raw as int);
                assert(p.raw < children[k].raw);
            },
            KindView::File(_) => {},
        }
        if p != y {
            lemma_descends_above(nodes, p.raw as int, y);
        }
    }
}

/// Whether no node occurs twice in the walk `w`.
pub open spec fn walk_unique(w: Seq<(Seq<char>, Idx)>) -> bool {
    forall|a: int, b: int| 0 <= a < b < w.len() ==> (#[trigger] w[a]).1 != (#[trigger] w[b]).1
}

/// Whether `c` is a child of `parent` in range.
pub open spec fn child_of(nodes: Seq<NodeView>, c: Idx, parent: Idx) -> bool {
    &&& parent.raw < c.raw < nodes.len()
    &&& nodes[c.raw as int].parent == Some(parent)
}

/// The walk over children `sorted` of `parent` holds, without repeating
/// one, only those children and nodes under them.
proof fn lemma_walk_children_unique(
    nodes: Seq<NodeView>,
    sorted: Seq<Idx>,
    prefix: Seq<char>,
    parent: Idx,
)
    requires
        tree_wf(nodes),
        all_listed(nodes),
        nodes.len() <= u32::MAX + 1,
        sorted.no_duplicates(),
        forall|k: int| 0 <= k < sorted.len() ==> #[trigger] child_of(nodes, sorted[k], parent),
    ensures
        walk_unique(walk_children(nodes, sorted, prefix, parent)),
        forall|e: (Seq<char>, Idx)|
            walk_children(nodes, sorted, prefix, parent).contains(e) ==> exists|j: int|
                0 <= j < sorted.len() && (e.1 == sorted[j] || descends(nodes, e.1.raw as int, #[trigger] sorted[j])),
    decreases nodes.len() - parent.raw, sorted.len(),
{
    let w = walk_children(nodes, sorted, prefix, parent);
    if sorted.len() == 0 {
        return;
    }
    let c0 = sorted[0];
    assert(child_of(nodes, c0, parent));
    let path = child_path(prefix, nodes[c0.raw as int].name);
    let below = if nodes[c0.raw as int].kind is Dir {
        walk_from(nodes, c0, path)
    } else {
        Seq::empty()
    };
    let tail = sorted.drop_first();
    let rest = walk_children(nodes, tail, prefix, parent);
    assert(w == seq![(path, c0)] + below + rest);
    // The rest of the children.
    assert forall|a: int, b: int| 0 <= a < b < tail.len() implies tail[a] != tail[b] by {
        assert(tail[a] == sorted[a + 1] && tail[b] == sorted[b + 1]);
    }
    assert forall|k: int| 0 <= k < tail.len() implies #[trigger] child_of(nodes, tail[k], parent) by {
        assert(tail[k] == sorted[k + 1]);
        assert(child_of(nodes, sorted[k + 1], parent));
    }
    lemma_walk_children_unique(nodes, tail, prefix, parent);
    // Everything under the first child.
    assert(node_wf(nodes, c0.raw as int));
    if nodes[c0.raw as int].kind is Dir {
        let children = nodes[c0.raw as int].kind->Dir_0;
        let sub = sort_by_name(nodes, children);
        assert(children.no_duplicates()) by {
            assert forall|a: int, b: int| 0 <= a < b < children.len() implies children[a] != children[b] by {
                assert(children[a].raw < children[b].raw);
            }
        }
        lemma_sort_unique(nodes, children);
        lemma_sort_members(nodes, children);
        assert forall|k: int| 0 <= k < sub.len() implies #[trigger] child_of(nodes, sub[k], c0) by {
            assert(children.contains(sub[k]));
            let j = choose|j: int| 0 <= j < children.len() && children[j] == sub[k];
            assert(c0.raw < children[j].raw < nodes.len());
        }
        assert(below == walk_children(nodes, sub, path, c0));
        lemma_walk_children_unique(nodes, sub, path, c0);
    }
    // Every entry under the first child lies under it.
    assert forall|e: (Seq<char>, Idx)| #[trigger] below.contains(e) implies descends(nodes, e.1.raw as int, c0) by {
        let children = nodes[c0.raw as int].kind->Dir_0;
        let sub = sort_by_name(nodes, children);
        let j = choose|j: int| 0 <= j < sub.len() && (e.1 == sub[j] || descends(nodes, e.1.raw as int, #[trigger] sub[j]));
        assert(child_of(nodes, sub[j], c0));
        if e.1 == sub[j] {
            assert(handle(sub[j].raw as int) == sub[j]);
        } else {
            lemma_descends_through(nodes, e.1.raw as int, sub[j], c0);
        }
    }
    // No entry of the rest is the first child or lies under it.
    assert forall|e: (Seq<char>, Idx)| #[trigger] rest.contains(e) implies e.1 != c0 && !descends(nodes, e.1.raw as int, c0) by {
        let j = choose|j: int| 0 <= j < tail.len() && (e.1 == tail[j] || descends(nodes, e.1.raw as int, #[trigger] tail[j]));
        let cj = tail[j];
        assert(cj == sorted[j + 1]);
        assert(child_of(nodes, cj, parent));
        assert(cj != c0);
        lemma_siblings_apart(nodes, cj, c0, parent);
        lemma_siblings_apart(nodes, c0, cj, parent);
        if e.1 == cj {
        } else {
            lemma_descends_above(nodes, e.1.raw as int, cj);
            if e.1 == c0 {
                assert(handle(c0.raw as int) == c0);
            }
            if descends(nodes, e.1.raw as int, c0) {
                lemma_descends_chain(nodes, e.1.raw as int, cj, c0);
                assert(handle(cj.raw as int) == cj);
                assert(handle(c0.raw as int) == c0);
            }
        }
    }
    assert forall|e: (Seq<char>, Idx)| #[trigger] below.contains(e) implies e.1 != c0 by {
        lemma_descends_above(nodes, e.1.raw as int, c0);
    }
    // So the whole walk holds no node twice.
    let nb = below.len() as int;
    assert forall|a: int, b: int| 0 <= a < b < w.len() implies (#[trigger] w[a]).1 != (#[trigger] w[b]).1 by {
        if a == 0 {
            if b <= nb {
                assert(below.contains(below[b - 1]));
                assert(w[b] == below[b - 1]);
            } else {
                assert(rest.contains(rest[b - 1 - nb]));
                assert(w[b] == rest[b - 1 - nb]);
            }
        } else if a <= nb {
            assert(w[a] == below[a - 1]);
            if b <= nb {
                assert(w[b] == below[b - 1]);
            } else {
                assert(w[b] == rest[b - 1 - nb]);
                assert(below.contains(below[a - 1]));
                assert(rest.contains(rest[b - 1 - nb]));
                if w[a].1 == w[b].1 {
                    assert(descends(nodes, w[a].1.raw as int, c0));
                }
            }
        } else {
            assert(w[a] == rest[a - 1 - nb]);
            assert(w[b] == rest[b - 1 - nb]);
        }
    }
    // Every entry is a child or lies under one.
    assert forall|e: (Seq<char>, Idx)| w.contains(e) implies exists|j: int|
        0 <= j < sorted.len() && (e.1 == sorted[j] || descends(nodes, e.1.raw as int, #[trigger] sorted[j])) by {
        let i = choose|i: int| 0 <= i < w.len() && w[i] == e;
        if i == 0 {
            assert(e.1 == sorted[0]);
        } else if i <= nb {
            assert(below.contains(below[i - 1]));
            assert(descends(nodes, e.1.raw as int, sorted[0]));
        } else {
            assert(rest.contains(rest[i - 1 - nb]));
            let j = choose|j: int| 0 <= j < tail.len() && (e.1 == tail[j] || descends(nodes, e.1.raw as int, #[trigger] tail[j]));
            assert(tail[j] == sorted[j + 1]);
        }
    }
}

/// Walking a parsed tree from its root yields no node twice.
pub proof fn lemma_walk_yields_no_node_twice(nodes: Seq<NodeView>)
    requires
        tree_wf(nodes),
        all_listed(nodes),
        1 <= nodes.len() <= u32::MAX + 1,
    ensures
        walk_unique(walk_from(nodes, handle(0), Seq::empty())),
{
    assert(node_wf(nodes, 0));
    if nodes[0].kind is Dir {
        let children = nodes[0].kind->Dir_0;
        let sub = sort_by_name(nodes, children);
        assert(children.no_duplicates()) by {
            assert forall|a: int, b: int| 0 <= a < b < children.len() implies children[a] != children[b] by {
                assert(children[a].raw < children[b].raw);
            }
        }
        lemma_sort_unique(nodes, children);
        lemma_sort_members(nodes, children);
        assert forall|k: int| 0 <= k < sub.len() implies #[trigger] child_of(nodes, sub[k], handle(0)) by {
            assert(children.contains(sub[k]));
            let j = choose|j: int| 0 <= j < children.len() && children[j] == sub[k];
            assert(0 < children[j].raw < nodes.len());
        }
        lemma_walk_children_unique(nodes, sub, Seq::empty(), handle(0));
    }
}

/// The abstract value of a walk's output.
pub open spec fn paths_view(v: Seq<(String, Idx)>) -> Seq<(Seq<char>, Idx)> {
    v.map_values(|e: (String, Idx)| (e.0@, e.1))
}

/// Whether `a` sorts strictly before `b`, byte by byte.
fn bytes_less(a: &[u8], b: &[u8]) -> (r: bool)
    ensures
        r == bytes_lt(a@, b@),
{
    let mut i: usize = 0;
    assert(a@.skip(0) =~= a@);
    assert(b@.skip(0) =~= b@);
    while i < a.len() && i < b.len()
        invariant
            i <= a@.len(),
            i <= b@.len(),
            bytes_lt(a@, b@) == bytes_lt(a@.skip(i as int), b@.skip(i as int)),
        decreases a.len() - i,
    {
        assert(a@.skip(i as int).drop_first() =~= a@.skip(i + 1));
        assert(b@.skip(i as int).drop_first() =~= b@.skip(i + 1));
        if a[i] != b[i] {
            return a[i] < b[i];
        }
        i = i + 1;
    }
    i == a.len() && i < b.len()
}

/// Whether the node at `a` sorts strictly before the node at `b` by name.
fn name_less(nodes: &la_arena::Arena<Node>, a: Idx, b: Idx) -> (r: bool)
    requires
        (a.raw as int) < arena_nodes(*nodes).len(),
        (b.raw as int) < arena_nodes(*nodes).len(),
    ensures
        r == name_before(arena_nodes(*nodes), a, b),
{
    let x = arena_get(nodes, a).name.as_str().as_bytes();
    let y = arena_get(nodes, b).name.as_str().as_bytes();
    bytes_less(x, y)
}

/// Sorts `v` stably by the names of the nodes it points at.
fn sort_children(nodes: &la_arena::Arena<Node>, v: &mut Vec<Idx>)
    requires
        forall|k: int| 0 <= k < old(v)@.len() ==> (#[trigger] old(v)@[k]).raw < arena_nodes(*nodes).len(),
    ensures
        final(v)@ == sort_by_name(arena_nodes(*nodes), old(v)@),
{
    let ghost ns = arena_nodes(*nodes);
    let ghost orig = v@;
    let n = v.len();
    let mut i: usize = 0;
    assert(v@.take(0) =~= sort_by_name(ns, orig.take(0)));
    while i < n
        invariant
            n == v@.len() == orig.len(),
            i <= n,
            ns == arena_nodes(*nodes),
            v@.take(i as int) == sort_by_name(ns, orig.take(i as int)),
            v@.skip(i as int) == orig.skip(i as int),
            forall|k: int| 0 <= k < v@.len() ==> (#[trigger] v@[k]).raw < ns.len(),
        decreases n - i,
    {
        let ghost sorted = v@.take(i as int);
        let ghost x = v@[i as int];
        assert(x == orig[i as int]) by {
            assert(v@.skip(i as int)[0] == orig.skip(i as int)[0]);
        }
        let mut j = i;
        assert(sorted.take(i as int) =~= sorted);
        assert(v@.subrange(i + 1, i + 1) =~= sorted.subrange(i as int, i as int));
        assert(insert_by_name(ns, sorted, x) =~= insert_by_name(ns, sorted.take(i as int), x)
            + sorted.subrange(i as int, i as int));
        assert(v@.skip(i + 1) =~= orig.skip(i + 1)) by {
            assert forall|k: int| 0 <= k < v@.skip(i + 1).len() implies #[trigger] v@.skip(i + 1)[k] == orig.skip(i + 1)[k] by {
                assert(v@.skip(i as int)[k + 1] == orig.skip(i as int)[k + 1]);
            }
        }
        while j > 0 && name_less(nodes, v[j], v[j - 1])
            invariant
                n == v@.len(),
                i < n,
                j <= i,
                ns == arena_nodes(*nodes),
                sorted.len() == i,
                v@[j as int] == x,
                v@.take(j as int) == sorted.take(j as int),
                v@.subrange(j + 1, i + 1) == sorted.subrange(j as int, i as int),
                v@.skip(i + 1) == orig.skip(i + 1),
                insert_by_name(ns, sorted, x) == insert_by_name(ns, sorted.take(j as int), x)
                    + sorted.subrange(j as int, i as int),
                forall|k: int| 0 <= k < v@.len() ==> (#[trigger] v@[k]).raw < ns.len(),
            decreases j,
        {
            let a = v[j - 1];
            let b = v[j];
            proof {
                assert(a == sorted[j - 1]) by {
                    assert(v@.take(j as int)[j - 1] == sorted.take(j as int)[j - 1]);
                }
                let st = sorted.take(j as int);
                assert(st.drop_last() =~= sorted.take(j - 1));
                assert(st.last() == a);
                assert(insert_by_name(ns, st, x) == insert_by_name(ns, sorted.take(j - 1), x).push(a));
                assert(insert_by_name(ns, sorted.take(j - 1), x).push(a) + sorted.subrange(j as int, i as int)
                    =~= insert_by_name(ns, sorted.take(j - 1), x) + sorted.subrange(j - 1, i as int));
            }
            let ghost vold = v@;
            v.set(j - 1, b);
            v.set(j, a);
            j = j - 1;
            proof {
                assert forall|k: int| j + 1 <= k < i + 1 implies v@[k] == sorted[k - 1] by {
                    if k > j + 1 {
                        assert(vold.subrange(j + 2, i + 1)[k - j - 2] == sorted.subrange(j + 1, i as int)[k - j - 2]);
                    }
                }
                assert forall|k: int| 0 <= k < j implies v@[k] == sorted[k] by {
                    assert(vold.take(j + 1)[k] == sorted.take(j + 1)[k]);
                }
                assert(v@.take(j as int) =~= sorted.take(j as int));
                assert(v@.subrange(j + 1, i + 1) =~= sorted.subrange(j as int, i as int));
                assert(v@.skip(i + 1) =~= orig.skip(i + 1));
            }
        }
        proof {
            if j > 0 {
                let st = sorted.take(j as int);
                assert(st.last() == sorted[j - 1]);
                assert(v@.take(j as int)[j - 1] == sorted.take(j as int)[j - 1]);
            }
            assert(insert_by_name(ns, sorted.take(j as int), x) =~= sorted.take(j as int).push(x));
            assert(v@.take(i + 1) =~= sorted.take(j as int).push(x) + sorted.subrange(j as int, i as int));
            assert(orig.take(i + 1).drop_last() =~= orig.take(i as int));
            assert(orig.take(i + 1).last() == x);
            assert(v@.skip(i + 1) =~= orig.skip(i + 1));
        }
        i = i + 1;
    }
    assert(v@ =~= v@.take(n as int));
    assert(orig =~= orig.take(n as int));
}

impl Index {
    /// Walks the tree depth-first, yielding each node with its full path.
    ///
    /// Children are visited in name order, each directory's own entry coming
    /// before everything under it.
    pub fn walk(&self) -> (r: Vec<(String, Idx)>)
        requires
            tree_wf(self@),
            (self.root.raw as int) < self@.len(),
        ensures
            paths_view(r@) == walk_from(self@, self.root, Seq::empty()),
    {
        let mut out = Vec::new();
        let top = String::new();
        self.walk_into(self.root, top.as_str(), &mut out);
        assert(paths_view(out@) =~= paths_view(Seq::empty()) + walk_from(self@, self.root, Seq::empty()));
        out
    }

    fn walk_into(&self, at: Idx, prefix: &str, out: &mut Vec<(String, Idx)>)
        requires
            tree_wf(self@),
            (at.raw as int) < self@.len(),
        ensures
            paths_view(final(out)@) == paths_view(old(out)@) + walk_from(self@, at, prefix@),
        decreases self@.len() - at.raw,
    {
        let ghost ns = self@;
        let node = arena_get(&self.nodes, at);
        assert(node_wf(ns, at.raw as int));
        let children = match &node.kind {
            Kind::Dir(children) => children,
            Kind::File(_) => {
                assert(paths_view(out@) =~= paths_view(out@) + Seq::<(Seq<char>, Idx)>::empty());
                return;
            },
        };
        let mut sorted: Vec<Idx> = Vec::new();
        let mut c: usize = 0;
        while c < children.len()
            invariant
                c <= children@.len(),
                sorted@ == children@.take(c as int),
            decreases children.len() - c,
        {
            sorted.push(children[c]);
            c = c + 1;
            assert(sorted@ =~= children@.take(c as int));
        }
        assert(children@.take(children@.len() as int) =~= children@);
        assert(ns[at.raw as int].kind == KindView::Dir(children@));
        assert forall|k: int| 0 <= k < children@.len() implies at.raw < (#[trigger] children@[k]).raw < ns.len() by {
            assert(node_wf(ns, at.raw as int));
            match ns[at.raw as int].kind {
                KindView::Dir(ch) => {
                    assert(ch == children@);
                    assert(at.raw < ch[k].raw < ns.len());
                },
                KindView::File(_) => {},
            }
        }
        sort_children(&self.nodes, &mut sorted);
        proof {
            lemma_sort_members(ns, children@);
        }
        let ghost start = paths_view(out@);
        let mut i: usize = 0;
        assert(sorted@.skip(0) =~= sorted@);
        while i < sorted.len()
            invariant
                ns == self@,
                tree_wf(ns),
                (at.raw as int) < ns.len(),
                ns[at.raw as int].kind == KindView::Dir(children@),
                sorted@ == sort_by_name(ns, children@),
                forall|k: int| 0 <= k < sorted@.len() ==> children@.contains(#[trigger] sorted@[k]),
                forall|k: int| 0 <= k < children@.len() ==> at.raw < (#[trigger] children@[k]).raw < ns.len(),
                i <= sorted@.len(),
                start + walk_children(ns, sorted@, prefix@, at) == paths_view(out@) + walk_children(
                    ns,
                    sorted@.skip(i as int),
                    prefix@,
                    at,
                ),
            decreases sorted.len() - i,
        {
            let child = sorted[i];
            proof {
                assert(children@.contains(child));
                let m = choose|m: int| 0 <= m < children@.len() && children@[m] == child;
                assert(at.raw < children@[m].raw < ns.len());
            }
            let cnode = arena_get(&self.nodes, child);
            let path = if prefix.is_empty() {
                cnode.name.clone()
            } else {
                let mut p = prefix.to_owned();
                p.append("/");
                p.append(cnode.name.as_str());
                proof {
                    reveal_strlit("/");
                }
                p
            };
            assert(path@ == child_path(prefix@, ns[child.raw as int].name));
            let ghost before = paths_view(out@);
            out.push((path.clone(), child));
            assert(paths_view(out@) =~= before.push((path@, child)));
            let ghost mid = paths_view(out@);
            if cnode.is_dir() {
                self.walk_into(child, path.as_str(), out);
            }
            proof {
                let rest = sorted@.skip(i as int);
                assert(rest[0] == child);
                assert(rest.drop_first() =~= sorted@.skip(i + 1));
                let below = if ns[child.raw as int].kind is Dir {
                    walk_from(ns, child, path@)
                } else {
                    Seq::empty()
                };
                assert(paths_view(out@) =~= mid + below);
                assert(walk_children(ns, rest, prefix@, at) == seq![(path@, child)] + below
                    + walk_children(ns, sorted@.skip(i + 1), prefix@, at));
                assert(before + walk_children(ns, rest, prefix@, at) =~= paths_view(out@)
                    + walk_children(ns, sorted@.skip(i + 1), prefix@, at));
            }
            i = i + 1;
        }
        proof {
            assert(sorted@.skip(i as int) =~= Seq::<Idx>::empty());
            assert(start + walk_children(ns, sorted@, prefix@, at) =~= paths_view(out@));
        }
    }
}

} // verus!
