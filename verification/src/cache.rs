//! Bounded page cache.
//!
//! Pages are handed out as `Arc`s so a hit never copies. The policy is LRU,
//! chosen from measurements over a corpus of real installers rather than
//! from first principles.
use vstd::prelude::*;

use std::sync::Arc;

verus! {

/// A decompressed page, shared by every reader that asked for it.
pub type Page = Arc<Vec<u8>>;

/// Cache floor in bytes.
pub const BUDGET_FLOOR: u64 = 8_388_608;

/// Cache ceiling in bytes. A library should not claim hundreds of megabytes
/// without being asked, so the ceiling is deliberately modest; sequential
/// reads stay optimal well below it because LRU only needs the page
/// currently being consumed.
pub const BUDGET_CEILING: u64 = 134_217_728;

/// How much the cache may retain, derived from an archive's own page sizes.
#[derive(Debug, Clone, Copy, PartialEq, Eq, Structural)]
pub struct Budget {
    /// Resident page count.
    pub pages: usize,
}

/// The sizes in `s`, summed.
pub open spec fn total_u32(s: Seq<u32>) -> int
    decreases s.len(),
{
    if s.len() == 0 {
        0
    } else {
        total_u32(s.drop_last()) + s.last()
    }
}

/// The mean page size, never below one byte.
pub open spec fn mean_page(s: Seq<u32>) -> int {
    let count = if s.len() < 1 { 1 } else { s.len() as int };
    let m = total_u32(s) / count;
    if m < 1 { 1 } else { m }
}

/// The resident page count for pages of decompressed sizes `s` read by
/// `workers` workers: two mean-sized pages per worker, held between the
/// floor and the ceiling in bytes, then between two pages and the archive's
/// own page count (or two, if it has fewer).
pub open spec fn budget_pages(s: Seq<u32>, workers: int) -> int {
    let count = if s.len() < 1 { 1 } else { s.len() as int };
    let mean = mean_page(s);
    let raw = 2 * workers * mean;
    let want = if raw < BUDGET_FLOOR {
        BUDGET_FLOOR as int
    } else if raw > BUDGET_CEILING {
        BUDGET_CEILING as int
    } else {
        raw
    };
    let hi = if count < 2 { 2 } else { count };
    let p = want / mean;
    if p < 2 { 2 } else if p > hi { hi } else { p }
}

/// The sizes' sum is at most the largest size times their count.
pub proof fn lemma_total_bounds(s: Seq<u32>)
    ensures
        0 <= total_u32(s) <= s.len() * 0xFFFF_FFFF,
    decreases s.len(),
{
    if s.len() > 0 {
        lemma_total_bounds(s.drop_last());
    }
}

/// For a page table of at most `u32::MAX` pages read by fewer than 2^31
/// workers, the sizes' sum, and twice the workers times the mean size, fit a
/// `u64`.
pub proof fn lemma_budget_fits(s: Seq<u32>, workers: int)
    requires
        s.len() <= u32::MAX,
        0 <= workers < 0x8000_0000,
    ensures
        total_u32(s) <= u64::MAX,
        2 * workers * mean_page(s) <= u64::MAX,
{
    lemma_total_bounds(s);
    let t = total_u32(s);
    let len = s.len() as int;
    let count = if s.len() < 1 { 1 } else { len };
    assert(t <= 0xFFFF_FFFF * 0xFFFF_FFFF) by (nonlinear_arith)
        requires
            t <= len * 0xFFFF_FFFF,
            0 <= len <= 0xFFFF_FFFF,
    ;
    assert(t <= count * 0xFFFF_FFFF) by (nonlinear_arith)
        requires
            t <= len * 0xFFFF_FFFF,
            len <= count,
            0 <= len,
    ;
    assert(t / count <= 0xFFFF_FFFF) by (nonlinear_arith)
        requires
            0 <= t <= count * 0xFFFF_FFFF,
            count >= 1,
    ;
    let m = mean_page(s);
    assert(1 <= m <= 0xFFFF_FFFF);
    assert(2 * workers * m <= 2 * 0x7FFF_FFFF * 0xFFFF_FFFF) by (nonlinear_arith)
        requires
            0 <= workers <= 0x7FFF_FFFF,
            1 <= m <= 0xFFFF_FFFF,
    ;
}

impl Budget {
    /// Sizes the cache from uncompressed page sizes, which the page table
    /// carries before any page is read.
    ///
    /// Page sizes span two orders of magnitude across real archives, so any
    /// fixed value either thrashes on one shape or wastes memory on the
    /// other. Holding a couple of pages per worker lets each thread own one
    /// and still reuse a neighbour's. The sizes' sum, and twice the workers
    /// times the mean size, must fit a `u64`.
    pub fn from_pages(uncompressed: &[u32], workers: usize) -> (b: Budget)
        requires
            total_u32(uncompressed@) <= u64::MAX,
            2 * workers * mean_page(uncompressed@) <= u64::MAX,
        ensures
            b.pages == budget_pages(uncompressed@, workers as int),
            2 <= b.pages,
            b.pages <= uncompressed@.len() || b.pages == 2,
    {
        let count = if uncompressed.len() < 1 {
            1
        } else {
            uncompressed.len()
        };
        let mut total: u64 = 0;
        let mut i: usize = 0;
        while i < uncompressed.len()
            invariant
                i <= uncompressed@.len(),
                total_u32(uncompressed@) <= u64::MAX,
                total == total_u32(uncompressed@.take(i as int)),
            decreases uncompressed.len() - i,
        {
            proof {
                assert(uncompressed@.take(i + 1).drop_last() =~= uncompressed@.take(i as int));
                lemma_total_prefix(uncompressed@, i + 1);
            }
            total = total + uncompressed[i] as u64;
            i = i + 1;
        }
        assert(uncompressed@.take(uncompressed@.len() as int) =~= uncompressed@);
        let m = total / (count as u64);
        let mean = if m < 1 {
            1
        } else {
            m
        };
        assert(mean == mean_page(uncompressed@));
        assert(2 * workers <= 2 * workers * mean) by (nonlinear_arith)
            requires
                mean >= 1,
        ;
        let raw = 2 * (workers as u64) * mean;
        let want = if raw < BUDGET_FLOOR {
            BUDGET_FLOOR
        } else if raw > BUDGET_CEILING {
            BUDGET_CEILING
        } else {
            raw
        };
        // An upper bound of at least two stays above the lower one: an
        // archive with a single page (or none) would otherwise clamp with
        // min > max.
        let hi = if count < 2 {
            2
        } else {
            count
        };
        let p = want / mean;
        let pages = if p < 2 {
            2
        } else if p > hi as u64 {
            hi
        } else {
            p as usize
        };
        Budget { pages }
    }
}

proof fn lemma_total_prefix(s: Seq<u32>, k: int)
    requires
        0 <= k <= s.len(),
    ensures
        total_u32(s.take(k)) <= total_u32(s),
    decreases s.len() - k,
{
    if k < s.len() {
        lemma_total_prefix(s, k + 1);
        assert(s.take(k + 1).drop_last() =~= s.take(k));
    } else {
        assert(s.take(k) =~= s);
    }
}

#[verifier::external_type_specification]
#[verifier::external_body]
#[verifier::reject_recursive_types(K)]
#[verifier::reject_recursive_types(V)]
#[verifier::reject_recursive_types(S)]
pub struct ExLruCache<K, V, S>(lru::LruCache<K, V, S>);

/// The page slots of a [`PageCache`], keyed by page number. A std hasher is
/// named so that every type here is one Verus knows.
pub type Slots = lru::LruCache<usize, Option<Page>, std::collections::hash_map::RandomState>;

/// The abstract value of a cache slot: the page it holds, if loaded.
pub open spec fn slot_view(s: Option<Page>) -> Option<Seq<u8>> {
    match s {
        Some(p) => Some(p@),
        None => None,
    }
}

/// The entries a [`Slots`] cache holds, most recently used
/// first.
pub uninterp spec fn lru_entries(c: Slots) -> Seq<
    (usize, Option<Seq<u8>>),
>;

/// The capacity a [`Slots`] cache was made with.
pub uninterp spec fn lru_capacity(c: Slots) -> nat;

/// The position of key `k` in `s`, or -1.
pub open spec fn key_index(s: Seq<(usize, Option<Seq<u8>>)>, k: usize) -> int
    decreases s.len(),
{
    if s.len() == 0 {
        -1
    } else if s[0].0 == k {
        0
    } else {
        let r = key_index(s.drop_first(), k);
        if r < 0 { -1 } else { r + 1 }
    }
}

/// `s` after a use of key `k`: its entry, if any, moves to the front.
pub open spec fn lru_touched(s: Seq<(usize, Option<Seq<u8>>)>, k: usize) -> Seq<
    (usize, Option<Seq<u8>>),
> {
    let i = key_index(s, k);
    if i < 0 {
        s
    } else {
        seq![s[i]] + s.remove(i)
    }
}

/// `s` after `(k, v)` is put into a cache of capacity `cap`: an entry for
/// `k` is replaced and moved to the front; else the new entry goes to the
/// front, and if the cache was full its least recently used entry leaves.
pub open spec fn lru_put(
    s: Seq<(usize, Option<Seq<u8>>)>,
    cap: nat,
    k: usize,
    v: Option<Seq<u8>>,
) -> Seq<(usize, Option<Seq<u8>>)> {
    let i = key_index(s, k);
    if i >= 0 {
        seq![(k, v)] + s.remove(i)
    } else if s.len() == cap {
        seq![(k, v)] + s.drop_last()
    } else {
        seq![(k, v)] + s
    }
}

/// No key occurs twice.
pub open spec fn distinct_keys(s: Seq<(usize, Option<Seq<u8>>)>) -> bool {
    forall|i: int, j: int| 0 <= i < j < s.len() ==> #[trigger] s[i].0 != #[trigger] s[j].0
}

/// `lru::LruCache::with_hasher` with capacity `cap`, which must not be zero
/// (the crate takes a `NonZeroUsize`): an empty cache.
#[verifier::external_body]
fn lru_new(cap: usize) -> (c: Slots)
    requires
        cap > 0,
    ensures
        lru_entries(c) == Seq::<(usize, Option<Seq<u8>>)>::empty(),
        lru_capacity(c) == cap,
{
    lru::LruCache::with_hasher(
        std::num::NonZeroUsize::new(cap).unwrap(),
        std::collections::hash_map::RandomState::new(),
    )
}

/// `lru::LruCache::get`: the slot stored under `k`, if any (cloned out, which
/// for an `Arc` shares the page), moving it to the front.
#[verifier::external_body]
fn lru_get(c: &mut Slots, k: usize) -> (r: Option<Option<Page>>)
    ensures
        lru_capacity(*final(c)) == lru_capacity(*old(c)),
        lru_entries(*final(c)) == lru_touched(lru_entries(*old(c)), k),
        match r {
            Some(slot) => key_index(lru_entries(*old(c)), k) >= 0 && slot_view(slot) == lru_entries(
                *old(c),
            )[key_index(lru_entries(*old(c)), k)].1,
            None => key_index(lru_entries(*old(c)), k) < 0,
        },
{
    c.get(&k).cloned()
}

/// `lru::LruCache::put`: stores `v` under `k` as the crate's source does
/// (replace and promote, or insert at the front, evicting the least recently
/// used entry when full).
#[verifier::external_body]
fn lru_store(c: &mut Slots, k: usize, v: Option<Page>)
    ensures
        lru_capacity(*final(c)) == lru_capacity(*old(c)),
        lru_entries(*final(c)) == lru_put(lru_entries(*old(c)), lru_capacity(*old(c)), k, slot_view(v)),
{
    c.put(k, v);
}

/// `Arc::clone`: another handle to the same page.
#[verifier::external_body]
fn share(p: &Page) -> (r: Page)
    ensures
        r@ == p@,
{
    p.clone()
}

/// Where [`key_index`] points: at an entry for `k`, or nowhere when no entry
/// has key `k`.
pub proof fn lemma_key_index(s: Seq<(usize, Option<Seq<u8>>)>, k: usize)
    ensures
        -1 <= key_index(s, k) < s.len(),
        key_index(s, k) >= 0 ==> s[key_index(s, k)].0 == k,
        key_index(s, k) < 0 ==> forall|j: int| 0 <= j < s.len() ==> s[j].0 != k,
    decreases s.len(),
{
    if s.len() > 0 && s[0].0 != k {
        lemma_key_index(s.drop_first(), k);
        if key_index(s, k) < 0 {
            assert forall|j: int| 0 <= j < s.len() implies s[j].0 != k by {
                if j > 0 {
                    assert(s[j] == s.drop_first()[j - 1]);
                }
            }
        }
    }
}

/// Putting an entry keeps the keys distinct and the cache within its
/// capacity.
pub proof fn lemma_put_bounded(
    s: Seq<(usize, Option<Seq<u8>>)>,
    cap: nat,
    k: usize,
    v: Option<Seq<u8>>,
)
    requires
        distinct_keys(s),
        s.len() <= cap,
        cap >= 1,
    ensures
        distinct_keys(lru_put(s, cap, k, v)),
        lru_put(s, cap, k, v).len() <= cap,
        lru_put(s, cap, k, v)[0] == (k, v),
        key_index(lru_put(s, cap, k, v), k) == 0,
{
    lemma_key_index(s, k);
    let t = lru_put(s, cap, k, v);
    let i = key_index(s, k);
    let rest = if i >= 0 {
        s.remove(i)
    } else if s.len() == cap {
        s.drop_last()
    } else {
        s
    };
    assert(t =~= seq![(k, v)] + rest);
    assert forall|a: int| 0 <= a < rest.len() implies #[trigger] rest[a].0 != k by {
        if i >= 0 {
            if a < i {
                assert(rest[a] == s[a]);
            } else {
                assert(rest[a] == s[a + 1]);
            }
        } else {
            assert(rest[a] == s[a]);
        }
    }
    assert forall|a: int, b: int| 0 <= a < b < t.len() implies #[trigger] t[a].0 != #[trigger] t[b].0 by {
        if a == 0 {
            assert(t[b] == rest[b - 1]);
        } else {
            assert(t[a] == rest[a - 1]);
            assert(t[b] == rest[b - 1]);
            if i >= 0 {
                let a2 = if a - 1 < i { a - 1 } else { a };
                let b2 = if b - 1 < i { b - 1 } else { b };
                assert(rest[a - 1] == s[a2]);
                assert(rest[b - 1] == s[b2]);
            } else {
                assert(rest[a - 1] == s[a - 1]);
                assert(rest[b - 1] == s[b - 1]);
            }
        }
    }
}

/// Using a key keeps the keys distinct and the entries unchanged but for
/// their order.
pub proof fn lemma_touch_bounded(s: Seq<(usize, Option<Seq<u8>>)>, k: usize)
    requires
        distinct_keys(s),
    ensures
        distinct_keys(lru_touched(s, k)),
        lru_touched(s, k).len() == s.len(),
        key_index(s, k) >= 0 ==> lru_touched(s, k)[0] == s[key_index(s, k)] && key_index(
            lru_touched(s, k),
            k,
        ) == 0,
{
    lemma_key_index(s, k);
    let i = key_index(s, k);
    if i >= 0 {
        let t = lru_touched(s, k);
        let rest = s.remove(i);
        assert(t =~= seq![s[i]] + rest);
        assert forall|a: int, b: int| 0 <= a < b < t.len() implies #[trigger] t[a].0 != #[trigger] t[b].0 by {
            let b2 = if b - 1 < i { b - 1 } else { b };
            assert(t[b] == s[b2]);
            if a == 0 {
                assert(t[a] == s[i]);
            } else {
                let a2 = if a - 1 < i { a - 1 } else { a };
                assert(t[a] == s[a2]);
            }
        }
    }
}

/// Every entry after a put is the one put, or was there before.
pub proof fn lemma_put_from(
    s: Seq<(usize, Option<Seq<u8>>)>,
    cap: nat,
    k: usize,
    v: Option<Seq<u8>>,
)
    requires
        s.len() <= cap,
        cap >= 1,
    ensures
        forall|a: int|
            0 <= a < lru_put(s, cap, k, v).len() ==> #[trigger] lru_put(s, cap, k, v)[a] == (k, v)
                || s.contains(lru_put(s, cap, k, v)[a]),
{
    lemma_key_index(s, k);
    let t = lru_put(s, cap, k, v);
    let i = key_index(s, k);
    assert forall|a: int| 0 <= a < t.len() implies #[trigger] t[a] == (k, v) || s.contains(t[a]) by {
        if a > 0 {
            let b = if i >= 0 && a - 1 >= i { a } else { a - 1 };
            if i >= 0 {
                assert(t =~= seq![(k, v)] + s.remove(i));
            } else if s.len() == cap {
                assert(t =~= seq![(k, v)] + s.drop_last());
            } else {
                assert(t =~= seq![(k, v)] + s);
            }
            assert(0 <= b < s.len());
            assert(t[a] == s[b]);
        }
    }
}

/// Every entry after a use of a key was there before.
pub proof fn lemma_touch_from(s: Seq<(usize, Option<Seq<u8>>)>, k: usize)
    ensures
        forall|a: int| 0 <= a < lru_touched(s, k).len() ==> s.contains(#[trigger] lru_touched(s, k)[a]),
{
    lemma_key_index(s, k);
    let t = lru_touched(s, k);
    let i = key_index(s, k);
    assert forall|a: int| 0 <= a < t.len() implies s.contains(#[trigger] t[a]) by {
        if i >= 0 {
            if a == 0 {
                assert(t[a] == s[i]);
            } else {
                let b = if a - 1 < i { a - 1 } else { a };
                assert(t[a] == s[b]);
            }
        } else {
            assert(t[a] == s[a]);
        }
    }
}

/// The page cached under key `n`, if loaded.
pub open spec fn cached(s: Seq<(usize, Option<Seq<u8>>)>, n: usize) -> Option<Seq<u8>> {
    let i = key_index(s, n);
    if i >= 0 { s[i].1 } else { None }
}

/// The entries once key `n` holds a slot at the front: the existing one
/// promoted, or an empty one put in.
pub open spec fn lru_slotted(s: Seq<(usize, Option<Seq<u8>>)>, cap: nat, n: usize) -> Seq<
    (usize, Option<Seq<u8>>),
> {
    if key_index(s, n) >= 0 {
        lru_touched(s, n)
    } else {
        lru_put(s, cap, n, None)
    }
}

/// How many of the slots `s` hold a loaded page.
pub open spec fn resident(s: Seq<(usize, Option<Seq<u8>>)>) -> nat
    decreases s.len(),
{
    if s.len() == 0 {
        0
    } else {
        resident(s.drop_last()) + if s.last().1 is Some { 1nat } else { 0nat }
    }
}

proof fn lemma_resident_len(s: Seq<(usize, Option<Seq<u8>>)>)
    ensures
        resident(s) <= s.len(),
    decreases s.len(),
{
    if s.len() > 0 {
        lemma_resident_len(s.drop_last());
    }
}

/// An LRU of decompressed pages, keyed by page number.
///
/// LRU rather than a frequency policy: reads scan pages in order, because
/// files are stored and listed in path order, and a frequency-based
/// admission policy reads that scan as a stream of low-frequency entries and
/// refuses to admit them.
#[derive(Debug)]
pub struct PageCache {
    slots: Slots,
}

impl PageCache {
    /// The cache holds no page twice, at most its capacity, and can hold at
    /// least two.
    pub open spec fn wf(self) -> bool {
        &&& distinct_keys(self.entries())
        &&& self.entries().len() <= self.capacity()
        &&& self.capacity() >= 2
    }

    /// The cached slots, most recently used first.
    pub closed spec fn entries(self) -> Seq<(usize, Option<Seq<u8>>)> {
        lru_entries(self.slots)
    }

    /// How many slots the cache holds at most.
    pub closed spec fn capacity(self) -> nat {
        lru_capacity(self.slots)
    }

    /// A cache built from `budget` holds at most `max(2, budget.pages)` pages
    /// in every later state: [`PageCache::new`] makes it well formed with that
    /// capacity, every [`PageCache::get_or_load`] keeps both, and a well-formed
    /// cache holds no more pages than its capacity.
    pub proof fn lemma_resident_bounded(self, budget: Budget)
        requires
            self.wf(),
            self.capacity() == if budget.pages < 2 { 2 } else { budget.pages as int },
        ensures
            resident(self.entries()) <= if budget.pages < 2 { 2 } else { budget.pages as int },
    {
        lemma_resident_len(self.entries());
    }

    /// Builds a cache holding at most `budget.pages` decompressed pages,
    /// never fewer than two.
    pub fn new(budget: Budget) -> (c: Self)
        ensures
            c.wf(),
            c.entries() == Seq::<(usize, Option<Seq<u8>>)>::empty(),
            c.capacity() == if budget.pages < 2 { 2 } else { budget.pages as int },
    {
        let cap = if budget.pages < 2 {
            2
        } else {
            budget.pages
        };
        Self { slots: lru_new(cap) }
    }

    /// Returns page `n`, calling `load` only if it is not already resident.
    ///
    /// A hit hands out the cached page and promotes it. A miss first gives
    /// `n` a slot at the front (evicting the least recently used entry if the
    /// cache is full), then loads; a failed load leaves that slot empty, so a
    /// later call retries. An evicted page stays alive for whoever still
    /// holds its `Arc`. On a hit `load` is never called, so it need only be
    /// callable when page `n` is not resident.
    pub fn get_or_load<E, F: FnOnce() -> core::result::Result<Vec<u8>, E>>(
        &mut self,
        n: usize,
        load: F,
    ) -> (r: core::result::Result<Page, E>)
        requires
            old(self).wf(),
            cached(old(self).entries(), n) is None ==> load.requires(()),
        ensures
            final(self).wf(),
            final(self).capacity() == old(self).capacity(),
            r matches Ok(page) ==> cached(final(self).entries(), n) == Some(page@),
            r is Err ==> cached(final(self).entries(), n) is None,
            cached(old(self).entries(), n) matches Some(p) ==> (r matches Ok(page) && page@ == p
                && final(self).entries() == lru_touched(old(self).entries(), n)),
            cached(old(self).entries(), n) is None ==> match r {
                Ok(page) => (exists|v: Vec<u8>|
                    #[trigger] call_ensures(load, (), Ok::<Vec<u8>, E>(v)) && v@ == page@)
                    && final(self).entries() == lru_put(
                    lru_slotted(old(self).entries(), old(self).capacity(), n),
                    old(self).capacity(),
                    n,
                    Some(page@),
                ),
                Err(e) => call_ensures(load, (), Err::<Vec<u8>, E>(e)) && final(self).entries()
                    == lru_slotted(old(self).entries(), old(self).capacity(), n),
            },
    {
        proof {
            lemma_key_index(lru_entries(self.slots), n);
            lemma_touch_bounded(lru_entries(self.slots), n);
            lemma_put_bounded(lru_entries(self.slots), lru_capacity(self.slots), n, None);
        }
        let ghost before = lru_entries(self.slots);
        match lru_get(&mut self.slots, n) {
            Some(Some(hit)) => {
                return Ok(hit);
            },
            Some(None) => {},
            None => lru_store(&mut self.slots, n, None),
        }
        let ghost slotted = lru_entries(self.slots);
        assert(slotted == lru_slotted(before, lru_capacity(self.slots), n));
        proof {
            lemma_key_index(slotted, n);
        }
        match load() {
            Ok(bytes) => {
                let ghost loaded = bytes;
                let page: Page = Arc::new(bytes);
                proof {
                    lemma_put_bounded(slotted, lru_capacity(self.slots), n, Some(page@));
                }
                lru_store(&mut self.slots, n, Some(share(&page)));
                assert(call_ensures(load, (), Ok::<Vec<u8>, E>(loaded)));
                Ok(page)
            },
            Err(e) => Err(e),
        }
    }
}

} // verus!
