//! A small-object allocator over a list of pages: requests up to a page are served from pools
//! of fixed-size chunks cut from those pages.
use vstd::prelude::*;

use crate::align::{spec_align_down, spec_align_up};
use crate::bintree::index::{lemma_exp2_is_pow2, lemma_exp2_values};
use crate::buddy::def::MemPtr;
use crate::def::{pool_index, pool_size, PGSZ, POOL_COUNT, POOL_PGSZ};
use crate::layout::{valid_layout, Layout};
use crate::linklist::link::{chunks, Linkedlist};
use crate::slab::pools::{
    allocate_from, can_take, empty_pools, init_at, len_at, pools_wf, push_at, take_chunk, views,
};
use crate::slab::slab_allocator::{find_fit_size, find_pool, fit_size, lemma_fit_size};

verus! {

/// Pools of chunks over a list of pages.
pub struct SlabAllocator {
    pool: Vec<Linkedlist>,
}

impl SlabAllocator {
    /// The chunks of each pool, head first; pool `POOL_PGSZ` lists the pages.
    pub closed spec fn pools(&self) -> Seq<Seq<usize>> {
        views(self.pool@)
    }

    /// There are `POOL_COUNT` pools and no chunk lies at address `0`.
    pub closed spec fn wf(&self) -> bool {
        pools_wf(self.pool@)
    }

    /// An allocator with empty pools.
    pub fn new_uninit() -> (r: Self)
        ensures
            r.wf(),
            r.pools() == Seq::new(POOL_COUNT as nat, |i: int| Seq::<usize>::empty()),
    {
        let r = Self { pool: empty_pools(POOL_COUNT) };
        assert(r.pools() =~= Seq::new(POOL_COUNT as nat, |i: int| Seq::<usize>::empty()));
        r
    }

    /// Whether pool `index` has a chunk.
    pub fn is_pool_empty(&self, index: usize) -> (r: bool)
        requires
            self.wf(),
            index < POOL_COUNT,
        ensures
            r == (self.pools()[index as int].len() > 0),
    {
        len_at(&self.pool, index) != 0
    }

    /// The layout a request is served with: size `fit_size`, alignment unchanged; fails when
    /// that layout is not valid.
    pub fn align_layout(layout: Layout) -> (r: Result<Layout, ()>)
        ensures
            r is Ok <==> valid_layout(fit_size(layout.bytes()), layout.alignment()),
            r matches Ok(l) ==> l.bytes() == fit_size(layout.bytes()) && l.alignment()
                == layout.alignment(),
    {
        let fit_size = find_fit_size(layout.size());
        match Layout::from_size_align(fit_size, layout.align()) {
            Ok(l) => Ok(l),
            Err(_) => Err(()),
        }
    }

    /// Puts the pages that cover `bottom..top` in the page list.
    pub fn init(&mut self, bottom: usize, top: usize)
        requires
            old(self).wf(),
            0 < spec_align_up(bottom, PGSZ) < spec_align_down(top, PGSZ),
        ensures
            final(self).wf(),
            final(self).pools() == old(self).pools().update(
                POOL_PGSZ as int,
                chunks(spec_align_up(bottom, PGSZ), spec_align_down(top, PGSZ) as int, PGSZ as int),
            ),
    {
        proof {
            lemma_exp2_values();
            lemma_exp2_is_pow2(12);
        }
        init_at(&mut self.pool, POOL_PGSZ, bottom, top, PGSZ);
    }

    /// Takes a chunk of `size` bytes from pool `index` (see `take_chunk`).
    fn allocate(&mut self, index: usize, size: usize) -> (r: Option<MemPtr>)
        requires
            old(self).wf(),
            index < POOL_PGSZ,
            size == pool_size(index as int),
            can_take(old(self).pools(), index as int),
        ensures
            final(self).wf(),
            r == Some(take_chunk(old(self).pools(), index as int, size as int).0),
            final(self).pools() == take_chunk(old(self).pools(), index as int, size as int).1,
    {
        allocate_from(&mut self.pool, index, size)
    }

    /// Allocates a chunk for `layout` from the pool of its rounded size. Fails when the
    /// rounded layout is not valid, and for a rounded size that no pool has when it exceeds the
    /// number of pages in the page list.
    pub fn allocate_fit(&mut self, layout: Layout) -> (r: Result<MemPtr, ()>)
        requires
            old(self).wf(),
            ({
                let fit = fit_size(layout.bytes());
                let v = old(self).pools();
                valid_layout(fit, layout.alignment()) ==> {
                    &&& pool_index(fit) >= 0 ==> can_take(v, pool_index(fit))
                    &&& pool_index(fit) < 0 ==> fit > v[POOL_PGSZ as int].len()
                }
            }),
        ensures
            final(self).wf(),
            r matches Ok(p) ==> p != 0,
            ({
                let fit = fit_size(layout.bytes());
                let taken = take_chunk(old(self).pools(), pool_index(fit), fit as int);
                &&& !valid_layout(fit, layout.alignment()) ==> r == Err::<MemPtr, ()>(()) && *final(self) == *old(self)
                &&& valid_layout(fit, layout.alignment()) && pool_index(fit) >= 0 ==> {
                    &&& r == Ok::<MemPtr, ()>(taken.0)
                    &&& final(self).pools() == taken.1
                }
                &&& valid_layout(fit, layout.alignment()) && pool_index(fit) < 0 ==> r == Err::<
                    MemPtr,
                    (),
                >(()) && *final(self) == *old(self)
            }),
    {
        let asked = layout.size();
        proof {
            lemma_fit_size(asked);
        }
        let fit_layout = match Self::align_layout(layout) {
            Ok(l) => l,
            Err(_) => {
                return Err(());
            },
        };
        let ptr = match find_pool(fit_layout.size()) {
            Some(index) => {
                proof {
                    crate::slab::pools::lemma_take_chunk_nonzero(
                        self.pool@,
                        index as int,
                        fit_layout.bytes() as int,
                    );
                }
                self.allocate(index, fit_layout.size())
            },
            None => {
                let size = fit_layout.size();
                if size > len_at(&self.pool, POOL_PGSZ) {
                    return Err(());
                }
                assert(false);
                return Err(());
            },
        };
        match ptr {
            Some(p) => Ok(p),
            None => {
                assert(false);
                Err(())
            },
        }
    }

    /// Puts the chunk at `ptr` back at the head of pool `index`.
    fn deallocate(&mut self, index: usize, ptr: MemPtr)
        requires
            old(self).wf(),
            index < POOL_COUNT,
            ptr != 0,
        ensures
            final(self).wf(),
            final(self).pools() == old(self).pools().update(
                index as int,
                seq![ptr] + old(self).pools()[index as int],
            ),
    {
        push_at(&mut self.pool, index, ptr)
    }

    /// Frees the chunk at `ptr` allocated for `layout`: it goes back to the head of the pool of
    /// the rounded size, or of the page list when no pool has that size.
    pub fn deallocate_fit(&mut self, ptr: MemPtr, layout: Layout)
        requires
            old(self).wf(),
            valid_layout(fit_size(layout.bytes()), layout.alignment()),
            ptr != 0,
        ensures
            final(self).wf(),
            ({
                let fit = fit_size(layout.bytes());
                let index = if pool_index(fit) >= 0 {
                    pool_index(fit)
                } else {
                    POOL_PGSZ as int
                };
                final(self).pools() == old(self).pools().update(
                    index,
                    seq![ptr] + old(self).pools()[index],
                )
            }),
    {
        let asked = layout.size();
        proof {
            lemma_fit_size(asked);
        }
        let layout = match Self::align_layout(layout) {
            Ok(l) => l,
            Err(_) => {
                assert(false);
                return ;
            },
        };
        match find_pool(layout.size()) {
            Some(index) => self.deallocate(index, ptr),
            None => self.deallocate(POOL_PGSZ, ptr),
        }
    }
}

/// A chunk that `deallocate_fit` puts back into a pool is the chunk that `allocate_fit` hands
/// out next for the same layout, and taking it leaves the pools as they were before the free.
pub proof fn law_alloc_after_free(sa: SlabAllocator, freed: SlabAllocator, ptr: usize, layout: Layout)
    requires
        sa.wf(),
        valid_layout(fit_size(layout.bytes()), layout.alignment()),
        pool_index(fit_size(layout.bytes())) >= 0,
        freed.pools() == sa.pools().update(
            pool_index(fit_size(layout.bytes())),
            seq![ptr] + sa.pools()[pool_index(fit_size(layout.bytes()))],
        ),
    ensures
        ({
            let fit = fit_size(layout.bytes());
            let taken = take_chunk(freed.pools(), pool_index(fit), fit as int);
            &&& can_take(freed.pools(), pool_index(fit))
            &&& taken.0 == ptr
            &&& taken.1 == sa.pools()
        }),
{
    let i = pool_index(fit_size(layout.bytes()));
    let v = sa.pools();
    let v2 = freed.pools();
    assert(v.len() == POOL_COUNT);
    assert(v2[i] == seq![ptr] + v[i]);
    assert(v2[i].subrange(1, v2[i].len() as int) =~= v[i]);
    assert(v2.update(i, v2[i].subrange(1, v2[i].len() as int)) =~= v);
}

} // verus!
