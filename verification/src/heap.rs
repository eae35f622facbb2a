//! A small-object heap over a list of pages: requests up to a page are served from pools of
//! fixed-size chunks cut from those pages, and the heap counts the bytes handed out.
use vstd::prelude::*;

use crate::align::{align_down, align_up, is_align, spec_align_down, spec_align_up};
use crate::bintree::index::{lemma_exp2_is_pow2, lemma_exp2_values};
use crate::buddy::def::MemPtr;
use crate::def::{pool_index, pool_size, PGSZ, POOL_COUNT, POOL_PGSZ};
use crate::layout::{valid_layout, Layout};
use crate::linklist::link::{chunks, Linkedlist};
use crate::slab::pools::{
    allocate_from, can_take, empty_pools, init_at, len_at, pools_wf, push_at, take_chunk, views,
};
use crate::slab::slab_allocator::{find_fit_size, find_pool, fit_size, lemma_fit_size};

verus! {

/// A heap of pools of chunks over a list of pages.
pub struct Heap {
    pub used: usize,
    pub pool: Vec<Linkedlist>,
}

impl Heap {
    /// There are `POOL_COUNT` lists and no chunk lies at address `0`.
    pub open spec fn wf(&self) -> bool {
        pools_wf(self.pool@)
    }

    /// A heap with no pages and nothing handed out.
    pub fn new_uninit() -> (r: Self)
        ensures
            r.wf(),
            r.used == 0,
            views(r.pool@) == Seq::new(POOL_COUNT as nat, |i: int| Seq::<usize>::empty()),
    {
        let pool = empty_pools(POOL_COUNT);
        let r = Self { used: 0, pool };
        assert(views(r.pool@) =~= Seq::new(POOL_COUNT as nat, |i: int| Seq::<usize>::empty()));
        r
    }

    /// The layout a request is served with: size `fit_size`, alignment unchanged; fails when
    /// that layout is not valid.
    pub fn align_layout(layout: Layout) -> (r: Result<Layout, ()>)
        ensures
            r is Ok <==> valid_layout(fit_size(layout.bytes()), layout.alignment()),
            r matches Ok(l) ==> l.bytes() == fit_size(layout.bytes()) && l.alignment()
                == layout.alignment(),
    {
        let fit_size = find_fit_size(layout.size());
        match Layout::from_size_align(fit_size, layout.align()) {
            Ok(l) => Ok(l),
            Err(_) => Err(()),
        }
    }

    /// Puts the pages that cover `bottom..top` in the page list and clears the count of bytes
    /// handed out.
    pub fn init(&mut self, bottom: usize, top: usize)
        requires
            old(self).wf(),
            0 < spec_align_up(bottom, PGSZ) < spec_align_down(top, PGSZ),
        ensures
            final(self).wf(),
            final(self).used == 0,
            views(final(self).pool@) == views(old(self).pool@).update(
                POOL_PGSZ as int,
                chunks(spec_align_up(bottom, PGSZ), spec_align_down(top, PGSZ) as int, PGSZ as int),
            ),
    {
        self.used = 0;
        proof {
            lemma_exp2_values();
            lemma_exp2_is_pow2(12);
        }
        init_at(&mut self.pool, POOL_PGSZ, bottom, top, PGSZ);
    }

    /// Whether `init` accepts the pages from `bottom` to `top`: at least one whole page lies
    /// between them and the first one is not at address `0`.
    pub fn can_init(bottom: usize, top: usize) -> (r: bool)
        ensures
            r == (0 < spec_align_up(bottom, PGSZ) < spec_align_down(top, PGSZ)),
    {
        proof {
            vstd::arithmetic::power2::lemma2_to64();
            crate::align::lemma_align_pow2(bottom, 12);
            crate::align::lemma_align_pow2(top, 12);
        }
        if !is_align(bottom, PGSZ) && bottom > usize::MAX - PGSZ {
            return false;
        }
        let start = align_up(bottom, PGSZ);
        0 < start && start < align_down(top, PGSZ)
    }

    /// Takes a chunk of `size` bytes from pool `index` (see `take_chunk`).
    fn allocate(&mut self, index: usize, size: usize) -> (r: Option<MemPtr>)
        requires
            old(self).wf(),
            index < POOL_PGSZ,
            size == pool_size(index as int),
            can_take(views(old(self).pool@), index as int),
        ensures
            final(self).wf(),
            final(self).used == old(self).used,
            r == Some(take_chunk(views(old(self).pool@), index as int, size as int).0),
            views(final(self).pool@) == take_chunk(views(old(self).pool@), index as int, size as int).1,
    {
        allocate_from(&mut self.pool, index, size)
    }

    /// Allocates a chunk for `layout` from the pool of its rounded size and adds its size to
    /// the count of bytes handed out. Fails when the rounded layout is not valid, and for a
    /// rounded size that no pool has when it exceeds the number of pages in the page list.
    pub fn allocate_fit(&mut self, layout: Layout) -> (r: Result<MemPtr, ()>)
        requires
            old(self).wf(),
            ({
                let fit = fit_size(layout.bytes());
                let v = views(old(self).pool@);
                valid_layout(fit, layout.alignment()) ==> {
                    &&& pool_index(fit) >= 0 ==> can_take(v, pool_index(fit)) && old(self).used
                        + layout.bytes() <= usize::MAX
                    &&& pool_index(fit) < 0 ==> fit > v[POOL_PGSZ as int].len()
                }
            }),
        ensures
            final(self).wf(),
            r matches Ok(p) ==> p != 0,
            ({
                let fit = fit_size(layout.bytes());
                let v = views(old(self).pool@);
                let taken = take_chunk(v, pool_index(fit), fit as int);
                &&& !valid_layout(fit, layout.alignment()) ==> r == Err::<MemPtr, ()>(()) && *final(self) == *old(self)
                &&& valid_layout(fit, layout.alignment()) && pool_index(fit) >= 0 ==> {
                    &&& r == Ok::<MemPtr, ()>(taken.0)
                    &&& views(final(self).pool@) == taken.1
                    &&& final(self).used == old(self).used + layout.bytes()
                }
                &&& valid_layout(fit, layout.alignment()) && pool_index(fit) < 0 ==> r == Err::<
                    MemPtr,
                    (),
                >(()) && *final(self) == *old(self)
            }),
    {
        let asked = layout.size();
        proof {
            lemma_fit_size(asked);
        }
        let fit_layout = match Self::align_layout(layout) {
            Ok(l) => l,
            Err(_) => {
                return Err(());
            },
        };
        let ptr = match find_pool(fit_layout.size()) {
            Some(index) => {
                proof {
                    crate::slab::pools::lemma_take_chunk_nonzero(
                        self.pool@,
                        index as int,
                        fit_layout.bytes() as int,
                    );
                }
                self.allocate(index, fit_layout.size())
            },
            None => {
                let size = fit_layout.size();
                if size > len_at(&self.pool, POOL_PGSZ) {
                    return Err(());
                }
                assert(false);
                return Err(());
            },
        };
        self.used = self.used + layout.size();
        match ptr {
            Some(p) => Ok(p),
            None => {
                assert(false);
                Err(())
            },
        }
    }

    /// Whether `allocate_fit` can serve `layout` without failing on the way: for a valid
    /// rounded layout of a pool size, the pool has a chunk or the page list a page to cut, and
    /// the count of bytes handed out does not overflow; for one of no pool size, the rounded
    /// size exceeds the number of pages in the page list. Nothing changes.
    pub fn can_allocate_fit(&self, layout: Layout) -> (r: bool)
        requires
            self.wf(),
        ensures
            r == ({
                let fit = fit_size(layout.bytes());
                let v = views(self.pool@);
                valid_layout(fit, layout.alignment()) ==> {
                    &&& pool_index(fit) >= 0 ==> can_take(v, pool_index(fit)) && self.used
                        + layout.bytes() <= usize::MAX
                    &&& pool_index(fit) < 0 ==> fit > v[POOL_PGSZ as int].len()
                }
            }),
    {
        let asked = layout.size();
        proof {
            lemma_fit_size(asked);
        }
        let fit_layout = match Self::align_layout(layout) {
            Ok(l) => l,
            Err(_) => {
                return true;
            },
        };
        let fit = fit_layout.size();
        let pages = len_at(&self.pool, POOL_PGSZ);
        match find_pool(fit) {
            Some(index) => {
                if self.used > usize::MAX - asked {
                    return false;
                }
                if len_at(&self.pool, index) != 0 {
                    return true;
                }
                assert(views(self.pool@)[POOL_PGSZ as int] == self.pool@[POOL_PGSZ as int]@);
                match self.pool[POOL_PGSZ].first() {
                    Some(page) => page <= usize::MAX - PGSZ,
                    None => false,
                }
            },
            None => fit > pages,
        }
    }

    /// Whether `deallocate_fit` accepts the chunk at `ptr` for `layout`: the rounded layout is
    /// valid, `ptr` is not `0` and the count of bytes handed out covers the rounded size.
    pub fn can_deallocate_fit(&self, ptr: MemPtr, layout: Layout) -> (r: bool)
        ensures
            r == (valid_layout(fit_size(layout.bytes()), layout.alignment()) && ptr != 0
                && self.used >= fit_size(layout.bytes())),
    {
        let asked = layout.size();
        proof {
            lemma_fit_size(asked);
        }
        match Self::align_layout(layout) {
            Ok(l) => ptr != 0 && self.used >= l.size(),
            Err(_) => false,
        }
    }

    /// Puts the chunk at `ptr` back at the head of pool `index`.
    fn deallocate(&mut self, index: usize, ptr: MemPtr)
        requires
            old(self).wf(),
            index < POOL_COUNT,
            ptr != 0,
        ensures
            final(self).wf(),
            final(self).used == old(self).used,
            views(final(self).pool@) == views(old(self).pool@).update(
                index as int,
                seq![ptr] + views(old(self).pool@)[index as int],
            ),
    {
        push_at(&mut self.pool, index, ptr)
    }

    /// Frees the chunk at `ptr` allocated for `layout`: it goes back to the head of the pool of
    /// the rounded size, or of the page list when no pool has that size, and the rounded size
    /// is taken off the count of bytes handed out.
    pub fn deallocate_fit(&mut self, ptr: MemPtr, layout: Layout)
        requires
            old(self).wf(),
            valid_layout(fit_size(layout.bytes()), layout.alignment()),
            ptr != 0,
            old(self).used >= fit_size(layout.bytes()),
        ensures
            final(self).wf(),
            ({
                let fit = fit_size(layout.bytes());
                let index = if pool_index(fit) >= 0 {
                    pool_index(fit)
                } else {
                    POOL_PGSZ as int
                };
                &&& views(final(self).pool@) == views(old(self).pool@).update(
                    index,
                    seq![ptr] + views(old(self).pool@)[index],
                )
                &&& final(self).used == old(self).used - fit
            }),
    {
        let asked = layout.size();
        proof {
            lemma_fit_size(asked);
        }
        let layout = match Self::align_layout(layout) {
            Ok(l) => l,
            Err(_) => {
                assert(false);
                return ;
            },
        };
        match find_pool(layout.size()) {
            Some(index) => self.deallocate(index, ptr),
            None => self.deallocate(POOL_PGSZ, ptr),
        }
        self.used = self.used - layout.size();
    }
}

/// A chunk that `deallocate_fit` puts back into a pool is the chunk that `allocate_fit` hands
/// out next for the same layout, and taking it leaves the pools as they were before the free.
pub proof fn law_alloc_after_free(h: Heap, freed: Heap, ptr: usize, layout: Layout)
    requires
        h.wf(),
        valid_layout(fit_size(layout.bytes()), layout.alignment()),
        pool_index(fit_size(layout.bytes())) >= 0,
        views(freed.pool@) == views(h.pool@).update(
            pool_index(fit_size(layout.bytes())),
            seq![ptr] + views(h.pool@)[pool_index(fit_size(layout.bytes()))],
        ),
    ensures
        ({
            let fit = fit_size(layout.bytes());
            let taken = take_chunk(views(freed.pool@), pool_index(fit), fit as int);
            &&& can_take(views(freed.pool@), pool_index(fit))
            &&& taken.0 == ptr
            &&& taken.1 == views(h.pool@)
        }),
{
    let i = pool_index(fit_size(layout.bytes()));
    let v = views(h.pool@);
    let v2 = views(freed.pool@);
    assert(v2[i] == seq![ptr] + v[i]);
    assert(v2[i].subrange(1, v2[i].len() as int) =~= v[i]);
    assert(v2.update(i, v2[i].subrange(1, v2[i].len() as int)) =~= v);
}

} // verus!
