//! An in-memory pager: pages kept by page ID, and page IDs handed out in increasing order
//! starting at 1.
use crate::page::page::Page;
use crate::page::view::PageView;
use std::collections::hash_map::Entry;
use std::collections::HashMap;
use vstd::prelude::*;

verus! {

/// Keeps every page of a tree, by page ID.
pub struct Pager {
    pages: HashMap<u32, Page>,
    next_page_id: u32,
}

impl Pager {
    /// The stored pages, by page ID.
    pub closed spec fn pages(&self) -> Map<u32, Page> {
        self.pages@
    }

    /// The page ID the next allocation hands out.
    pub closed spec fn next_id(&self) -> u32 {
        self.next_page_id
    }

    /// An empty pager whose first page ID is 1.
    pub fn new() -> (r: Self)
        ensures
            r.pages() == Map::<u32, Page>::empty(),
            r.next_id() == 1,
    {
        Self { pages: HashMap::new(), next_page_id: 1 }
    }

    /// Hands out the next page ID.
    pub fn alloc_page_id(&mut self) -> (r: u32)
        requires
            old(self).next_id() < u32::MAX,
        ensures
            r == old(self).next_id(),
            final(self).next_id() == old(self).next_id() + 1,
            final(self).pages() == old(self).pages(),
    {
        let page_id = self.next_page_id;
        self.next_page_id = self.next_page_id + 1;
        page_id
    }

    /// Allocates a page ID and stores a fresh page under it.
    pub fn new_page(&mut self) -> (r: u32)
        requires
            old(self).next_id() < u32::MAX,
        ensures
            r == old(self).next_id(),
            final(self).next_id() == old(self).next_id() + 1,
            final(self).pages().dom() == old(self).pages().dom().insert(r),
            forall|id: u32| id != r && old(self).pages().contains_key(id) ==> #[trigger] final(self).pages()[id] == old(self).pages()[id],
            final(self).pages()[r].wf(),
            final(self).pages()[r]@ == PageView::fresh(r as int),
    {
        let page_id = self.alloc_page_id();
        let page = Page::new(page_id);
        self.pages.insert(page_id, page);
        page_id
    }

    /// Stores `page` under its own page ID, replacing any page stored there.
    pub fn insert_page(&mut self, page: Page)
        ensures
            final(self).pages() == old(self).pages().insert(page@.page_id as u32, page),
            final(self).next_id() == old(self).next_id(),
    {
        let page_id = page.page_id();
        self.pages.insert(page_id, page);
    }

    /// The page stored under `page_id`, if any.
    pub fn get(&self, page_id: u32) -> (r: Option<&Page>)
        ensures
            match r {
                Some(p) => self.pages().contains_key(page_id) && *p == self.pages()[page_id],
                None => !self.pages().contains_key(page_id),
            },
    {
        self.pages.get(&page_id)
    }

    /// The page stored under `page_id`, mutably, if any.
    pub fn get_mut(&mut self, page_id: u32) -> (r: Option<&mut Page>)
        ensures
            final(self).next_id() == old(self).next_id(),
            match r {
                Some(p) => {
                    &&& old(self).pages().contains_key(page_id)
                    &&& *p == old(self).pages()[page_id]
                    &&& final(self).pages() == old(self).pages().insert(page_id, *final(p))
                },
                None => {
                    &&& !old(self).pages().contains_key(page_id)
                    &&& final(self).pages() == old(self).pages()
                },
            },
    {
        match self.pages.entry(page_id) {
            Entry::Occupied(o) => Some(o.into_mut()),
            Entry::Vacant(_) => None,
        }
    }

    /// Whether a page is stored under `page_id`.
    pub fn contains(&self, page_id: u32) -> (r: bool)
        ensures
            r == self.pages().contains_key(page_id),
    {
        self.pages.contains_key(&page_id)
    }
}

} // verus!
