//! Buffer pool manager.

use super::page::Page;
use std::collections::HashMap;
use std::sync::Arc;
use vstd::prelude::*;

verus! {

broadcast use vstd::std_specs::hash::group_hash_axioms;

/// The abstract state of a buffer pool: the cached pages by id, and the
/// capacity it was made with.
pub struct BufferPoolView {
    pub pages: Map<u32, Arc<Page>>,
    pub capacity: nat,
}

/// The pages left after making room for an insertion: when the pool holds
/// `capacity` or more pages, the page with id 0 (if any) is dropped.
pub open spec fn make_room(pages: Map<u32, Arc<Page>>, capacity: nat) -> Map<u32, Arc<Page>> {
    if pages.len() >= capacity {
        pages.remove(0)
    } else {
        pages
    }
}

/// The pages after inserting `page`: room is made first, then `page` is
/// stored under its own id, replacing any page with that id.
pub open spec fn pages_after_insert(
    pages: Map<u32, Arc<Page>>,
    capacity: nat,
    page: Arc<Page>,
) -> Map<u32, Arc<Page>> {
    make_room(pages, capacity).insert(page.page_id, page)
}

/// Whether every page is stored under its own id.
pub open spec fn keyed_by_own_id(pages: Map<u32, Arc<Page>>) -> bool {
    forall|id: u32| #[trigger] pages.contains_key(id) ==> pages[id].page_id == id
}

/// What a lookup of `page_id` answers on `pages`.
pub open spec fn lookup(pages: Map<u32, Arc<Page>>, page_id: u32) -> Option<Arc<Page>> {
    if pages.contains_key(page_id) {
        Some(pages[page_id])
    } else {
        None
    }
}

/// A page that was just inserted is found under its id, whatever the pool
/// held and whatever its capacity.
pub proof fn lemma_get_after_insert(pages: Map<u32, Arc<Page>>, capacity: nat, page: Arc<Page>)
    ensures
        lookup(pages_after_insert(pages, capacity, page), page.page_id) == Some(page),
{
}

/// Inserting a page never disturbs a page whose id is neither 0 nor the new
/// page's id: only page 0 is ever evicted.
pub proof fn lemma_insert_keeps_other_pages(
    pages: Map<u32, Arc<Page>>,
    capacity: nat,
    page: Arc<Page>,
    page_id: u32,
)
    requires
        page_id != 0,
        page_id != page.page_id,
    ensures
        lookup(pages_after_insert(pages, capacity, page), page_id) == lookup(pages, page_id),
{
}

/// When the pool holds `capacity` pages or more, inserting a page with a
/// nonzero id evicts page 0.
pub proof fn lemma_insert_into_full_pool_evicts_page_zero(
    pages: Map<u32, Arc<Page>>,
    capacity: nat,
    page: Arc<Page>,
)
    requires
        pages.len() >= capacity,
        page.page_id != 0,
    ensures
        lookup(pages_after_insert(pages, capacity, page), 0) == None::<Arc<Page>>,
{
}

/// While the pool holds fewer than `capacity` pages, inserting evicts
/// nothing: every page present before is still there, except the one the
/// new page replaces.
pub proof fn lemma_insert_below_capacity_evicts_nothing(
    pages: Map<u32, Arc<Page>>,
    capacity: nat,
    page: Arc<Page>,
    page_id: u32,
)
    requires
        pages.len() < capacity,
        page_id != page.page_id,
    ensures
        lookup(pages_after_insert(pages, capacity, page), page_id) == lookup(pages, page_id),
{
}

/// An insertion changes the number of cached pages by at most one: it may
/// evict page 0 and may add the new page, and nothing else. The count is not
/// bounded by the capacity.
pub proof fn lemma_insert_changes_count_by_at_most_one(
    pages: Map<u32, Arc<Page>>,
    capacity: nat,
    page: Arc<Page>,
)
    requires
        pages.dom().finite(),
    ensures
        pages_after_insert(pages, capacity, page).dom().finite(),
        pages_after_insert(pages, capacity, page).len() <= pages.len() + 1,
        pages_after_insert(pages, capacity, page).len() + 1 >= pages.len(),
{
    let roomy = make_room(pages, capacity);
    assert(roomy.dom().finite());
    assert(roomy.len() + 1 >= pages.len());
    assert(roomy.len() <= pages.len());
}

/// Inserting keeps every page under its own id.
pub proof fn lemma_insert_keeps_pages_keyed(
    pages: Map<u32, Arc<Page>>,
    capacity: nat,
    page: Arc<Page>,
)
    requires
        keyed_by_own_id(pages),
    ensures
        keyed_by_own_id(pages_after_insert(pages, capacity, page)),
{
}

/// Hands out another shared handle to the same page.
///
/// Calls `std::sync::Arc::clone`, which makes a new pointer to the same
/// allocation; the contract claims that the handle it returns refers to a
/// value equal to the one behind `page`.
#[verifier::external_body]
fn share_page(page: &Arc<Page>) -> (shared: Arc<Page>)
    ensures
        shared == *page,
{
    Arc::clone(page)
}

/// Simple buffer pool with a hash map from page id to page.
pub struct BufferPool {
    pages: HashMap<u32, Arc<Page>>,
    capacity: usize,
}

impl View for BufferPool {
    type V = BufferPoolView;

    closed spec fn view(&self) -> BufferPoolView {
        BufferPoolView { pages: self.pages@, capacity: self.capacity as nat }
    }
}

impl BufferPool {
    /// Every cached page is stored under its own id.
    #[verifier::type_invariant]
    spec fn pages_keyed(self) -> bool {
        keyed_by_own_id(self.pages@)
    }

    /// The pool holds finitely many pages.
    pub proof fn lemma_pages_finite(&self)
        ensures
            self@.pages.dom().finite(),
    {
    }

    /// Create a new, empty buffer pool.
    pub fn new(capacity: usize) -> (pool: Self)
        ensures
            pool@.pages == Map::<u32, Arc<Page>>::empty(),
            pool@.capacity == capacity,
            keyed_by_own_id(pool@.pages),
    {
        Self { pages: HashMap::new(), capacity }
    }

    /// Get a page.
    pub fn get(&self, page_id: u32) -> (found: Option<Arc<Page>>)
        ensures
            found == lookup(self@.pages, page_id),
            found matches Some(page) ==> page.page_id == page_id,
            keyed_by_own_id(self@.pages),
    {
        proof {
            use_type_invariant(self);
        }
        match self.pages.get(&page_id) {
            Some(page) => Some(share_page(page)),
            None => None,
        }
    }

    /// Insert a page. When the pool already holds `capacity` pages or more,
    /// the page with id 0 is evicted first; a page with the same id as the
    /// new one is replaced.
    pub fn insert(&mut self, page: Arc<Page>)
        ensures
            final(self)@.capacity == old(self)@.capacity,
            final(self)@.pages == pages_after_insert(old(self)@.pages, old(self)@.capacity, page),
            keyed_by_own_id(final(self)@.pages),
    {
        proof {
            use_type_invariant(&*self);
        }
        let mut pages: HashMap<u32, Arc<Page>> = HashMap::new();
        std::mem::swap(&mut pages, &mut self.pages);
        if pages.len() >= self.capacity {
            pages.remove(&0);
        }
        let page_id = page.page_id();
        pages.insert(page_id, page);
        std::mem::swap(&mut pages, &mut self.pages);
    }

    /// Allocate a new, zeroed page with the given id, cache it and return it.
    pub fn allocate(&mut self, page_id: u32) -> (page: Arc<Page>)
        ensures
            page.is_fresh(page_id),
            page.page_id == page_id,
            page.data@.len() == 4096,
            forall|i: int| 0 <= i < page.data@.len() ==> page.data@[i] == 0u8,
            final(self)@.capacity == old(self)@.capacity,
            final(self)@.pages == pages_after_insert(old(self)@.pages, old(self)@.capacity, page),
            keyed_by_own_id(final(self)@.pages),
    {
        let page = Arc::new(Page::new(page_id));
        self.insert(share_page(&page));
        page
    }

    /// Get the capacity.
    pub fn capacity(&self) -> (capacity: usize)
        ensures
            capacity == self@.capacity,
    {
        self.capacity
    }
}

} // verus!
