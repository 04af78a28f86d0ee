//! Page management for the storage engine.

use vstd::prelude::*;

verus! {

/// Number of bytes in every page.
pub const PAGE_SIZE: usize = 4096;

/// The contents of a freshly created page: `PAGE_SIZE` zero bytes.
pub open spec fn zeroed_page_data() -> Seq<u8> {
    Seq::new(PAGE_SIZE as nat, |i: int| 0u8)
}

/// A page: its id and its bytes.
#[derive(Debug, Clone)]
pub struct Page {
    pub page_id: u32,
    pub data: Vec<u8>,
}

/// A page that is fresh for `page_id` carries that id and exactly 4096
/// bytes, every one of them zero.
pub proof fn lemma_fresh_page_is_zeroed(page: Page, page_id: u32)
    requires
        page.is_fresh(page_id),
    ensures
        page.page_id == page_id,
        page.data@.len() == 4096,
        forall|i: int| 0 <= i < 4096 ==> page.data@[i] == 0u8,
{
}

impl Page {
    /// Whether this page is exactly what `Page::new(page_id)` builds.
    pub open spec fn is_fresh(&self, page_id: u32) -> bool {
        &&& self.page_id == page_id
        &&& self.data@ == zeroed_page_data()
    }

    /// Create a new page of `PAGE_SIZE` zero bytes.
    pub fn new(page_id: u32) -> (page: Self)
        ensures
            page.is_fresh(page_id),
            page.page_id == page_id,
            page.data@.len() == 4096,
            forall|i: int| 0 <= i < page.data@.len() ==> page.data@[i] == 0u8,
    {
        let mut data: Vec<u8> = Vec::new();
        let mut i: usize = 0;
        while i < PAGE_SIZE
            invariant
                i <= PAGE_SIZE,
                data@ == Seq::new(i as nat, |j: int| 0u8),
            decreases PAGE_SIZE - i,
        {
            data.push(0u8);
            i = i + 1;
        }
        Self { page_id, data }
    }

    /// Get the page id.
    pub fn page_id(&self) -> (id: u32)
        ensures
            id == self.page_id,
    {
        self.page_id
    }

    /// Get the page size.
    pub fn size() -> (n: usize)
        ensures
            n == PAGE_SIZE,
            n == 4096,
    {
        PAGE_SIZE
    }
}

} // verus!
