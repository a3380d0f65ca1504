use std::sync::atomic::{AtomicUsize, Ordering};
use std::sync::Arc;

use cookfs::{Budget, PageCache};

fn page(byte: u8) -> Vec<u8> {
    vec![byte; 8]
}

#[test]
fn a_hit_does_not_call_load_again() {
    let mut cache = PageCache::new(Budget { pages: 4 });
    let calls = AtomicUsize::new(0);
    let count = || {
        calls.fetch_add(1, Ordering::Relaxed);
        Ok::<_, &str>(page(1))
    };

    assert!(cache.get_or_load(0, count).unwrap()[0] == 1);
    assert!(cache.get_or_load(0, count).unwrap()[0] == 1);
    assert!(calls.load(Ordering::Relaxed) == 1);
}

#[test]
fn a_hit_shares_rather_than_copies() {
    let mut cache = PageCache::new(Budget { pages: 4 });
    let first = cache.get_or_load(0, || Ok::<_, &str>(page(7))).unwrap();
    let second = cache.get_or_load(0, || Ok::<_, &str>(page(7))).unwrap();
    assert!(Arc::ptr_eq(&first, &second));
}

#[test]
fn a_failed_load_is_not_cached() {
    let mut cache = PageCache::new(Budget { pages: 4 });
    assert!(cache.get_or_load(0, || Err::<Vec<u8>, _>("boom")).is_err());
    assert!(cache.get_or_load(0, || Ok::<_, &str>(page(9))).unwrap()[0] == 9);
}

#[test]
fn eviction_keeps_the_cache_bounded() {
    let mut cache = PageCache::new(Budget { pages: 2 });
    for i in 0..8 {
        cache
            .get_or_load(i, || Ok::<_, &str>(page(i as u8)))
            .unwrap();
    }
    // The oldest entry is gone, so it reloads.
    let calls = AtomicUsize::new(0);
    cache
        .get_or_load(0, || {
            calls.fetch_add(1, Ordering::Relaxed);
            Ok::<_, &str>(page(0))
        })
        .unwrap();
    assert!(calls.load(Ordering::Relaxed) == 1);
}

#[test]
fn budget_adapts_to_page_size() {
    // Small pages: many fit, capped by how many the archive has.
    let small = Budget::from_pages(&[256 << 10; 600], 16);
    assert!(small.pages > 8);

    // Large pages: the ceiling limits the count, but never below two.
    let large = Budget::from_pages(&[35 << 20; 35], 16);
    assert!(large.pages >= 2);
    assert!(large.pages < 35);
}

#[test]
fn budget_handles_an_empty_page_table() {
    assert!(Budget::from_pages(&[], 8).pages == 2);
}

#[test]
fn budget_is_two_pages_per_worker_within_the_floor_and_ceiling() {
    // 1 MiB pages, 16 workers: 32 MiB wanted, 32 pages, under the 600 held.
    assert!(Budget::from_pages(&[1 << 20; 600], 16).pages == 32);
    // The floor: 8 MiB of 1 MiB pages.
    assert!(Budget::from_pages(&[1 << 20; 600], 1).pages == 8);
    // The ceiling: 128 MiB of 1 MiB pages.
    assert!(Budget::from_pages(&[1 << 20; 600], 1000).pages == 128);
    // Capped by the archive's own page count.
    assert!(Budget::from_pages(&[1 << 20; 5], 16).pages == 5);
    // A single page still gets two slots.
    assert!(Budget::from_pages(&[1 << 20], 16).pages == 2);
}

#[test]
fn a_budget_below_two_still_holds_two_pages() {
    let mut cache = PageCache::new(Budget { pages: 0 });
    cache.get_or_load(0, || Ok::<_, &str>(page(0))).unwrap();
    cache.get_or_load(1, || Ok::<_, &str>(page(1))).unwrap();
    let calls = AtomicUsize::new(0);
    let again = cache
        .get_or_load(0, || {
            calls.fetch_add(1, Ordering::Relaxed);
            Ok::<_, &str>(page(0))
        })
        .unwrap();
    assert!(again[0] == 0);
    assert!(calls.load(Ordering::Relaxed) == 0);
}

#[test]
fn a_hit_promotes_the_page_so_the_other_is_evicted() {
    let mut cache = PageCache::new(Budget { pages: 2 });
    cache.get_or_load(0, || Ok::<_, &str>(page(0))).unwrap();
    cache.get_or_load(1, || Ok::<_, &str>(page(1))).unwrap();
    cache.get_or_load(0, || Ok::<_, &str>(page(0))).unwrap(); // 0 is now the newest
    cache.get_or_load(2, || Ok::<_, &str>(page(2))).unwrap(); // evicts 1
    let calls = AtomicUsize::new(0);
    let counted = |b: u8| {
        calls.fetch_add(1, Ordering::Relaxed);
        Ok::<_, &str>(page(b))
    };
    cache.get_or_load(0, || counted(0)).unwrap();
    assert!(calls.load(Ordering::Relaxed) == 0);
    cache.get_or_load(1, || counted(1)).unwrap();
    assert!(calls.load(Ordering::Relaxed) == 1);
}

#[test]
fn a_failed_load_returns_the_loaders_error() {
    let mut cache = PageCache::new(Budget { pages: 2 });
    assert!(cache.get_or_load(3, || Err::<Vec<u8>, _>(17u32)).unwrap_err() == 17);
}

#[test]
fn a_hit_never_calls_a_loader_that_cannot_run() {
    let mut cache = PageCache::new(Budget { pages: 2 });
    cache.get_or_load(5, || Ok::<_, &str>(page(5))).unwrap();
    let hit = cache
        .get_or_load(5, || -> Result<Vec<u8>, &str> { panic!("load called on a hit") })
        .unwrap();
    assert!(hit[0] == 5);
}
