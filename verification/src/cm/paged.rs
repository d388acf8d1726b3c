//! Large tables that allocate memory only where they are written.
//!
//! A segment usually touches a small part of its tables. Entries are kept in pages; a
//! page that was never written takes no memory and reads as the initial value.
use vstd::prelude::*;

verus! {

/// Entries per page.
pub const PAGE: usize = 1024;

/// A table of entries, all alike at the start.
pub struct Paged<T> {
    pages: Vec<Vec<T>>,
    fill: T,
    len: usize,
}

impl<T> View for Paged<T> {
    type V = Seq<T>;

    closed spec fn view(&self) -> Seq<T> {
        Seq::new(
            self.len as nat,
            |i: int|
                if self.pages@[i / 1024]@.len() == 0 {
                    self.fill
                } else {
                    self.pages@[i / 1024]@[i % 1024]
                },
        )
    }
}

impl<T: Copy> Paged<T> {
    /// Every page is whole or empty.
    pub closed spec fn wf(self) -> bool {
        &&& self.len <= self.pages@.len() * 1024
        &&& forall|p: int|
            0 <= p < self.pages@.len() ==> (#[trigger] self.pages@[p])@.len() == 0
                || self.pages@[p]@.len() == 1024
    }

    /// A table is no longer than memory allows.
    pub proof fn lemma_len(&self)
        ensures
            self@.len() <= usize::MAX,
    {
    }

    /// `len` entries with the value `fill`.
    pub fn new(len: usize, fill: T) -> (r: Paged<T>)
        ensures
            r@ == Seq::new(len as nat, |i: int| fill),
            r.wf(),
    {
        let mut pages: Vec<Vec<T>> = Vec::new();
        let count: usize = len / PAGE + 1;
        let mut p: usize = 0;
        while p < count
            invariant
                p <= count,
                pages@.len() == p,
                forall|q: int| 0 <= q < p ==> (#[trigger] pages@[q])@.len() == 0,
            decreases count - p,
        {
            pages.push(Vec::new());
            p = p + 1;
        }
        let r = Paged { pages, fill, len };
        assert(r@ =~= Seq::new(len as nat, |i: int| fill));
        r
    }

    /// Entry `i`.
    pub fn get(&self, i: usize) -> (v: T)
        requires
            self.wf(),
            i < self@.len(),
        ensures
            v == self@[i as int],
    {
        let page = &self.pages[i / PAGE];
        if page.len() == 0 {
            self.fill
        } else {
            page[i % PAGE]
        }
    }

    /// Replace entry `i`.
    pub fn set(&mut self, i: usize, v: T)
        requires
            old(self).wf(),
            i < old(self)@.len(),
        ensures
            final(self)@ == old(self)@.update(i as int, v),
            final(self).wf(),
    {
        let ghost was = self@;
        let p: usize = i / PAGE;
        if self.pages[p].len() == 0 {
            let mut page: Vec<T> = Vec::with_capacity(PAGE);
            let mut k: usize = 0;
            while k < PAGE
                invariant
                    k <= 1024,
                    page@.len() == k,
                    forall|j: int| 0 <= j < k ==> #[trigger] page@[j] == self.fill,
                decreases 1024 - k,
            {
                page.push(self.fill);
                k = k + 1;
            }
            self.pages[p] = page;
        }
        assert(self@ =~= was);
        self.pages[p][i % PAGE] = v;
        assert(self@ =~= was.update(i as int, v));
    }
}

} // verus!
