use sqlrustgo::storage::buffer_pool::BufferPool;
use sqlrustgo::storage::page::Page;
use std::sync::Arc;

#[test]
fn test_buffer_pool_basic() {
    let pool = BufferPool::new(10);
    assert_eq!(pool.capacity(), 10);
}

#[test]
fn test_buffer_pool_get_page() {
    let mut pool = BufferPool::new(10);
    let page = Arc::new(Page::new(1));
    pool.insert(page);
    let retrieved = pool.get(1);
    assert!(retrieved.is_some());
    assert_eq!(retrieved.unwrap().page_id(), 1);
}

#[test]
fn test_buffer_pool_allocate() {
    let mut pool = BufferPool::new(10);
    let page = pool.allocate(5);
    assert_eq!(page.page_id(), 5);
    let retrieved = pool.get(5);
    assert!(retrieved.is_some());
}

#[test]
fn test_buffer_pool_empty() {
    let pool = BufferPool::new(5);
    let retrieved = pool.get(999);
    assert!(retrieved.is_none());
}

#[test]
fn test_buffer_pool_insert_then_allocate_same_id_overwrites() {
    let mut pool = BufferPool::new(4);
    let p1 = pool.allocate(7);
    assert_eq!(p1.page_id(), 7);
    let p2 = pool.allocate(7);
    assert_eq!(p2.page_id(), 7);
    let retrieved = pool.get(7).unwrap();
    assert_eq!(retrieved.page_id(), 7);
}

#[test]
fn test_buffer_pool_sequential_allocation_preserves_all() {
    let mut pool = BufferPool::new(4);
    for i in 1..=4 {
        pool.allocate(i);
    }
    for i in 1..=4 {
        assert!(pool.get(i).is_some(), "page {i} should exist");
    }
}

#[test]
fn test_buffer_pool_page_id_zero() {
    let mut pool = BufferPool::new(2);
    let page = pool.allocate(0);
    assert_eq!(page.page_id(), 0);
    let retrieved = pool.get(0);
    assert!(retrieved.is_some());
}

#[test]
fn test_buffer_pool_capacity_zero() {
    let pool = BufferPool::new(0);
    assert_eq!(pool.capacity(), 0);
}

#[test]
fn test_buffer_pool_capacity_one() {
    let mut pool = BufferPool::new(1);
    pool.allocate(1);
    pool.allocate(2);
    assert!(pool.get(2).is_some());
}

#[test]
fn test_buffer_pool_get_nonexistent() {
    let mut pool = BufferPool::new(3);
    pool.allocate(10);
    assert!(pool.get(999).is_none());
    assert!(pool.get(0).is_none());
}

#[test]
fn test_buffer_pool_capacity_exceeded_evicts_page_zero() {
    let mut pool = BufferPool::new(3);
    pool.allocate(1);
    pool.allocate(2);
    pool.allocate(3);
    pool.allocate(4);
    assert!(pool.get(0).is_none(), "page 0 should be evicted");
    assert!(pool.get(1).is_some(), "page 1 should remain");
    assert!(pool.get(4).is_some(), "page 4 inserted after eviction");
}

#[test]
fn test_buffer_pool_page_id_u32_min_and_max() {
    let mut pool = BufferPool::new(4);
    pool.allocate(u32::MIN);
    pool.allocate(u32::MAX);
    assert!(pool.get(u32::MIN).is_some());
    assert!(pool.get(u32::MAX).is_some());
}

#[test]
fn test_buffer_pool_many_pages_small_capacity() {
    let mut pool = BufferPool::new(2);
    for i in 1..=20u32 {
        pool.allocate(i);
    }
    for i in 1..=20u32 {
        assert!(pool.get(i).is_some(),
            "page {i} should still exist: eviction only removes page_id=0, and HashMap grows unbounded");
    }
}

#[test]
fn test_buffer_pool_eviction_only_removes_page_zero() {
    let mut pool = BufferPool::new(3);
    pool.insert(Arc::new(Page::new(0)));
    pool.allocate(1);
    pool.allocate(2);
    pool.allocate(3);
    pool.allocate(4);
    assert!(pool.get(0).is_none(), "page 0 should be evicted when pool is full");
    for i in 1..=4u32 {
        assert!(pool.get(i).is_some(), "page {i} should remain (non-zero ids are never evicted)");
    }
}

#[test]
fn test_buffer_pool_insert_with_zero_page_id_evicts_on_next_insert() {
    let mut pool = BufferPool::new(1);
    pool.insert(Arc::new(Page::new(0)));
    assert!(pool.get(0).is_some());
    pool.allocate(1);
    assert!(pool.get(0).is_none());
}

#[test]
fn get_after_insert_returns_the_inserted_page() {
    let mut pool = BufferPool::new(0);
    let mut page = Page::new(9);
    page.data[3] = 0x5A;
    pool.insert(Arc::new(page));
    let got = pool.get(9).unwrap();
    assert_eq!(got.page_id(), 9);
    assert_eq!(got.data[3], 0x5A);
    assert_eq!(got.data.len(), 4096);
}

#[test]
fn insert_replaces_page_with_same_id() {
    let mut pool = BufferPool::new(4);
    pool.allocate(3);
    let mut page = Page::new(3);
    page.data[0] = 0x77;
    pool.insert(Arc::new(page));
    assert_eq!(pool.get(3).unwrap().data[0], 0x77);
}

#[test]
fn page_zero_stays_below_capacity() {
    let mut pool = BufferPool::new(3);
    pool.allocate(0);
    pool.allocate(1);
    assert!(pool.get(0).is_some());
    assert!(pool.get(1).is_some());
}

#[test]
fn full_pool_reinserting_page_zero_keeps_it() {
    let mut pool = BufferPool::new(1);
    pool.allocate(0);
    pool.allocate(0);
    assert!(pool.get(0).is_some());
}

#[test]
fn allocate_returns_zeroed_page_shared_with_pool() {
    let mut pool = BufferPool::new(2);
    let page = pool.allocate(11);
    let cached = pool.get(11).unwrap();
    assert!(Arc::ptr_eq(&page, &cached));
    assert!(page.data.iter().all(|&b| b == 0));
    assert_eq!(pool.capacity(), 2);
}

#[test]
fn insert_changes_page_count_by_at_most_one() {
    let mut pool = BufferPool::new(2);
    pool.allocate(0);
    pool.allocate(1);
    // Full: inserting page 2 evicts page 0 and adds page 2.
    pool.allocate(2);
    let count = (0..=2u32).filter(|&id| pool.get(id).is_some()).count();
    assert_eq!(count, 2);
    // Still full, page 0 absent: the count grows past the capacity.
    pool.allocate(3);
    let count = (0..=3u32).filter(|&id| pool.get(id).is_some()).count();
    assert_eq!(count, 3);
}

#[test]
fn every_cached_page_sits_under_its_own_id() {
    let mut pool = BufferPool::new(2);
    pool.insert(Arc::new(Page::new(0)));
    for id in [5u32, 9, 5, u32::MAX, 1] {
        pool.allocate(id);
    }
    for id in [0u32, 1, 5, 9, u32::MAX] {
        if let Some(page) = pool.get(id) {
            assert_eq!(page.page_id(), id);
        }
    }
    assert!(pool.get(0).is_none());
    assert!(pool.get(5).is_some());
}
