//! The small-object allocator. Requests up to a page are rounded up to one of eight chunk
//! sizes and served from the pool of that size; an empty pool is refilled with a fresh page
//! from the page allocator. Larger requests go to the page allocator directly.
use vstd::prelude::*;

use crate::align::{align_up, is_align, lemma_align_exp2, spec_align_up, spec_is_align};
use crate::bintree::index::{is_pow2, lemma_exp2_is_pow2, lemma_exp2_values};
use crate::buddy::buddy_allocator::{init_pages, zone_page_count, BuddyAllocator, BuddyErr};
use crate::buddy::def::{MemPtr, MAX_PAGES, PAGE_SIZE, ZONE_PAGES};
use crate::def::{pool_index, pool_size, PGSZ, POOL_COUNT};
use crate::layout::{valid_layout, Layout};
use crate::linklist::link::{align_stop, align_stop_from, chunks, lemma_align_stop_range, law_pop_algin_after_push, Linkedlist};
use crate::align::spec_align_down;

verus! {

/// The chunk size a request of `size` bytes is rounded up to: the smallest pool size that
/// holds it, or whole pages beyond a page (and `0` for `0`).
pub open spec fn fit_size(size: nat) -> nat {
    if size == 0 {
        0
    } else if size <= 32 {
        32
    } else if size <= 64 {
        64
    } else if size <= 128 {
        128
    } else if size <= 256 {
        256
    } else if size <= 512 {
        512
    } else if size <= 1024 {
        1024
    } else if size <= 2048 {
        2048
    } else if size <= 4096 {
        4096
    } else {
        spec_align_up(size as usize, PGSZ) as nat
    }
}

/// The alignment of the rounded request: the larger of the asked alignment and the chunk size,
/// where the chunk size is a power of two; a rounded size beyond a page that is not a power of
/// two takes the larger of the asked alignment and a page.
pub open spec fn fit_align(size: nat, align: nat) -> nat {
    let base = if fit_size(size) <= PGSZ || is_pow2(fit_size(size)) {
        fit_size(size)
    } else {
        PGSZ as nat
    };
    if align > base {
        align
    } else {
        base
    }
}

/// Whether `pop_algin` on the chunks `s` hands out a chunk aligned to `size`.
pub open spec fn chunk_ready(s: Seq<usize>, size: usize) -> bool {
    s.len() > 0 && spec_is_align(s[align_stop(s, size)], size)
}

/// The address in a successful result of the page allocator.
pub open spec fn page_of(r: Result<MemPtr, BuddyErr>) -> usize {
    match r {
        Ok(p) => p,
        Err(_) => 0,
    }
}

/// A result of the page allocator with its error dropped.
pub open spec fn ok_unit(r: Result<MemPtr, BuddyErr>) -> Result<MemPtr, ()> {
    match r {
        Ok(p) => Ok(p),
        Err(_) => Err(()),
    }
}

/// The size a request is rounded to: nothing for an empty request; for a request of at most a
/// page, the smallest pool size (32, 64, ..., 4096 bytes) that holds it; beyond a page, the
/// request rounded up to whole pages.
pub proof fn law_fit_size_smallest(s: usize)
    ensures
        s == 0 ==> fit_size(s as nat) == 0,
        0 < s <= PGSZ ==> {
            let f = fit_size(s as nat);
            &&& f == 32 || f == 64 || f == 128 || f == 256 || f == 512 || f == 1024 || f == 2048
                || f == 4096
            &&& s <= f
            &&& s > 32 ==> f / 2 < s
        },
        s > PGSZ ==> {
            let f = fit_size(s as nat);
            &&& f % PGSZ as nat == 0
            &&& s <= f < s + PGSZ
        },
{
    lemma_exp2_values();
    lemma_exp2_is_pow2(12);
    lemma_align_exp2(s, PGSZ);
}

/// Index of the chunk size `size` among the eight pool sizes.
pub(crate) fn find_pool(size: usize) -> (r: Option<usize>)
    ensures
        pool_index(size as nat) >= 0 ==> r == Some(pool_index(size as nat) as usize),
        pool_index(size as nat) < 0 ==> r is None,
{
    let size_arr: [usize; 8] = [32, 64, 128, 256, 512, 1024, 2048, 4096];
    let mut index: usize = 0;
    while index < 8
        invariant
            index <= 8,
            size_arr@ == seq![32usize, 64, 128, 256, 512, 1024, 2048, 4096],
            forall|k: int| 0 <= k < index ==> size_arr@[k] != size,
        decreases 8 - index,
    {
        if size == size_arr[index] {
            return Some(index);
        }
        index = index + 1;
    }
    None
}

/// A rounded size is `0`, a pool size, or a multiple of a page beyond a page.
pub(crate) proof fn lemma_fit_size(size: usize)
    requires
        size <= isize::MAX,
    ensures
        fit_size(size as nat) == 0 <==> size == 0,
        0 < fit_size(size as nat) <= PGSZ ==> pool_index(fit_size(size as nat)) >= 0,
        fit_size(size as nat) > PGSZ ==> fit_size(size as nat) % PGSZ as nat == 0 && pool_index(
            fit_size(size as nat),
        ) < 0,
        size <= fit_size(size as nat) <= usize::MAX,
{
    lemma_exp2_values();
    lemma_exp2_is_pow2(12);
    lemma_align_exp2(size, PGSZ);
}

/// The size a request of `size` bytes is rounded to (see `fit_size`).
pub(crate) fn find_fit_size(size: usize) -> (r: usize)
    requires
        size <= isize::MAX,
    ensures
        r == fit_size(size as nat),
{
    proof {
        lemma_exp2_values();
        lemma_exp2_is_pow2(12);
        lemma_align_exp2(size, PGSZ);
    }
    if size == 0 {
        0
    } else if size <= 32 {
        32
    } else if size <= 64 {
        64
    } else if size <= 128 {
        128
    } else if size <= 256 {
        256
    } else if size <= 512 {
        512
    } else if size <= 1024 {
        1024
    } else if size <= 2048 {
        2048
    } else if size <= 4096 {
        4096
    } else {
        align_up(size, PGSZ)
    }
}

fn get_algin(v1: usize, v2: usize) -> (r: usize)
    ensures
        r == if v1 > v2 { v1 } else { v2 },
{
    if v1 > v2 {
        v1
    } else {
        v2
    }
}

/// Small-object allocator: eight pools of chunks from 32 bytes to a page, over a page allocator.
pub struct SlabAllocator {
    pool: Vec<Linkedlist>,
    buddy: BuddyAllocator,
}

impl SlabAllocator {
    /// The chunks of each pool, head first.
    pub closed spec fn pools(&self) -> Seq<Seq<usize>> {
        Seq::new(self.pool@.len(), |i: int| self.pool@[i]@)
    }

    /// The page allocator.
    pub closed spec fn page_allocator(&self) -> BuddyAllocator {
        self.buddy
    }

    /// There are `POOL_COUNT` pools, no chunk lies at address `0`, and the page allocator
    /// keeps its invariant.
    pub closed spec fn wf(&self) -> bool {
        &&& self.pool@.len() == POOL_COUNT
        &&& forall|i: int| 0 <= i < POOL_COUNT ==> #[trigger] self.pool@[i].wf()
        &&& self.buddy.wf()
    }

    /// Whether pool `index` can serve a chunk of `size` bytes: it hands one out, or it is
    /// left empty and the page allocator has a page for it.
    pub open spec fn can_refill(&self, index: int, size: usize) -> bool {
        let s = self.pools()[index];
        ||| chunk_ready(s, size)
        ||| s.len() <= 1 && self.page_allocator().allocate_result(PGSZ, PGSZ) is Ok
    }

    /// An allocator with empty pools and no zone.
    pub fn new() -> (r: Self)
        ensures
            r.wf(),
            r.pools() == Seq::new(POOL_COUNT as nat, |i: int| Seq::<usize>::empty()),
            !r.page_allocator().is_init(),
            r.page_allocator().free_pages() == 0,
    {
        let mut pool: Vec<Linkedlist> = Vec::new();
        while pool.len() < POOL_COUNT
            invariant
                pool.len() <= POOL_COUNT,
                forall|i: int| 0 <= i < pool.len() ==> #[trigger] pool@[i]@ == Seq::<usize>::empty(),
            decreases POOL_COUNT - pool.len(),
        {
            pool.push(Linkedlist::new());
        }
        let r = Self { pool, buddy: BuddyAllocator::new() };
        assert(r.pools() =~= Seq::new(POOL_COUNT as nat, |i: int| Seq::<usize>::empty()));
        r
    }

    /// The layout a request is served with: size `fit_size` and alignment `fit_align`; fails
    /// when that layout is not valid.
    pub fn align_layout(layout: Layout) -> (r: Result<Layout, ()>)
        ensures
            r is Ok <==> valid_layout(
                fit_size(layout.bytes()),
                fit_align(layout.bytes(), layout.alignment()),
            ),
            r matches Ok(l) ==> l.bytes() == fit_size(layout.bytes()) && l.alignment() == fit_align(
                layout.bytes(),
                layout.alignment(),
            ),
    {
        let fit_size = find_fit_size(layout.size());
        let base = if fit_size <= PGSZ || crate::bintree::index::is_power_of_two(fit_size) {
            fit_size
        } else {
            PGSZ
        };
        let algin = get_algin(layout.align(), base);
        match Layout::from_size_align(fit_size, algin) {
            Ok(l) => Ok(l),
            Err(_) => Err(()),
        }
    }

    /// Sets up the page allocator over the pages from `bottom` to `top`.
    pub fn init(&mut self, bottom: usize, top: usize)
        requires
            old(self).wf(),
            0 < bottom,
            spec_align_up(bottom, PAGE_SIZE) <= spec_align_down(top, PAGE_SIZE),
            zone_page_count(bottom, top) <= MAX_PAGES,
            ZONE_PAGES <= init_pages(
                spec_align_up(bottom, PAGE_SIZE),
                spec_align_down(top, PAGE_SIZE) as int,
            ),
            spec_align_up(bottom, PAGE_SIZE) + init_pages(
                spec_align_up(bottom, PAGE_SIZE),
                spec_align_down(top, PAGE_SIZE) as int,
            ) * PAGE_SIZE <= usize::MAX,
        ensures
            final(self).wf(),
            final(self).pools() == old(self).pools(),
            final(self).page_allocator().is_set_up(bottom, top),
    {
        self.buddy.init(bottom, top);
    }

    /// Takes a chunk of `layout.size()` bytes from pool `index`. When the pool hands none
    /// out, the pool (left empty) is refilled with the chunks of a fresh page from the page
    /// allocator; the first chunk is returned unless `layout.align()` exceeds a page, in which
    /// case nothing is returned.
    fn allocate(&mut self, index: usize, layout: Layout) -> (r: Option<MemPtr>)
        requires
            old(self).wf(),
            index < 8,
            layout.bytes() == pool_size(index as int),
            old(self).can_refill(index as int, layout.bytes() as usize),
        ensures
            final(self).wf(),
            ({
                let s = old(self).pools()[index as int];
                let size = layout.bytes() as usize;
                let j = align_stop(s, size);
                let b = old(self).page_allocator();
                let p = page_of(b.allocate_result(PGSZ, PGSZ));
                let fresh = chunks(p as int, p + PGSZ, size as int);
                &&& chunk_ready(s, size) ==> {
                    &&& r == Some(s[j])
                    &&& final(self).pools() == old(self).pools().update(
                        index as int,
                        s.subrange(j + 1, s.len() as int) + s.subrange(0, j),
                    )
                    &&& final(self).page_allocator() == b
                }
                &&& !chunk_ready(s, size) ==> {
                    &&& b.allocate_result(PGSZ, PGSZ) is Ok
                    &&& b.allocated(final(self).page_allocator(), PGSZ, PGSZ)
                    &&& b.in_zone(p as int)
                    &&& layout.alignment() <= PAGE_SIZE ==> {
                        &&& r == Some(p)
                        &&& final(self).pools() == old(self).pools().update(
                            index as int,
                            fresh.subrange(1, fresh.len() as int),
                        )
                    }
                    &&& layout.alignment() > PAGE_SIZE ==> {
                        &&& r is None
                        &&& final(self).pools() == old(self).pools().update(index as int, fresh)
                    }
                }
            }),
    {
        let ghost old_pools = self.pools();
        let mut list = self.pool.remove(index);
        assert(list@ == old_pools[index as int]);
        let popped = list.pop_algin(layout.size());
        if let Some(ptr) = popped {
            self.pool.insert(index, list);
            assert(self.pools() =~= old_pools.update(index as int, list@));
            return Some(ptr);
        }
        proof {
            lemma_exp2_values();
            lemma_exp2_is_pow2(12);
        }
        let page_layout = match Layout::from_size_align(PGSZ, PGSZ) {
            Ok(l) => l,
            Err(_) => {
                assert(false);
                return None;
            },
        };
        let page = match self.buddy.allocate(page_layout) {
            Ok(p) => p,
            Err(_) => {
                assert(false);
                return None;
            },
        };
        proof {
            old(self).buddy.lemma_zone();
            assert(list@.len() == 0);
        }
        let start = page;
        let end = start + PGSZ;
        proof {
            let sz = layout.bytes() as usize;
            assert(is_pow2(sz as nat)) by {
                lemma_exp2_is_pow2(5);
                lemma_exp2_is_pow2(6);
                lemma_exp2_is_pow2(7);
                lemma_exp2_is_pow2(8);
                lemma_exp2_is_pow2(9);
                lemma_exp2_is_pow2(10);
                lemma_exp2_is_pow2(11);
            }
            lemma_align_exp2(start, sz);
            lemma_align_exp2(end, sz);
            lemma_page_multiple(start, sz);
            lemma_page_multiple(end, sz);
        }
        list.init(start, end, layout.size());
        if layout.align() > PAGE_SIZE {
            self.pool.insert(index, list);
            assert(self.pools() =~= old_pools.update(index as int, list@));
            return None;
        }
        let ptr = match list.pop() {
            Some(p) => p,
            None => {
                assert(false);
                return None;
            },
        };
        self.pool.insert(index, list);
        assert(self.pools() =~= old_pools.update(index as int, list@));
        Some(ptr)
    }

    /// Allocates a block for `layout`. The request is rounded to `align_layout`; it fails when
    /// that layout is not valid and returns `0` for an empty request. A rounded size of at
    /// most a page is served by `allocate` from its pool, and when that gives nothing the
    /// page allocator is asked for the rounded layout, as it is for larger sizes.
    pub fn allocate_fit(&mut self, layout: Layout) -> (r: Result<MemPtr, ()>)
        requires
            old(self).wf(),
            ({
                let fit = fit_size(layout.bytes());
                let al = fit_align(layout.bytes(), layout.alignment());
                valid_layout(fit, al) && 0 < fit <= PGSZ ==> old(self).can_refill(
                    pool_index(fit),
                    fit as usize,
                )
            }),
        ensures
            final(self).wf(),
            r matches Ok(p) ==> p != 0 || fit_size(layout.bytes()) == 0,
            ({
                let fit = fit_size(layout.bytes());
                let al = fit_align(layout.bytes(), layout.alignment());
                let b = old(self).page_allocator();
                let i = pool_index(fit);
                let s = old(self).pools()[i];
                let j = align_stop(s, fit as usize);
                let p = page_of(b.allocate_result(PGSZ, PGSZ));
                let fresh = chunks(p as int, p + PGSZ, fit as int);
                &&& !valid_layout(fit, al) ==> r == Err::<MemPtr, ()>(()) && *final(self) == *old(self)
                &&& valid_layout(fit, al) && fit == 0 ==> r == Ok::<MemPtr, ()>(0) && *final(self)
                    == *old(self)
                &&& valid_layout(fit, al) && fit > PGSZ ==> {
                    &&& r == ok_unit(b.allocate_result(fit as usize, al as usize))
                    &&& final(self).pools() == old(self).pools()
                    &&& r is Ok ==> b.allocated(final(self).page_allocator(), fit as usize, al as usize)
                    &&& r is Err ==> final(self).page_allocator() == b
                }
                &&& valid_layout(fit, al) && 0 < fit <= PGSZ && chunk_ready(s, fit as usize) ==> {
                    &&& r == Ok::<MemPtr, ()>(s[j])
                    &&& final(self).pools() == old(self).pools().update(
                        i,
                        s.subrange(j + 1, s.len() as int) + s.subrange(0, j),
                    )
                    &&& final(self).page_allocator() == b
                }
                &&& valid_layout(fit, al) && 0 < fit <= PGSZ && !chunk_ready(s, fit as usize) ==> {
                    &&& b.in_zone(p as int)
                    &&& al <= PAGE_SIZE ==> {
                        &&& r == Ok::<MemPtr, ()>(p)
                        &&& final(self).pools() == old(self).pools().update(
                            i,
                            fresh.subrange(1, fresh.len() as int),
                        )
                        &&& b.allocated(final(self).page_allocator(), PGSZ, PGSZ)
                    }
                    &&& al > PAGE_SIZE ==> {
                        &&& final(self).pools() == old(self).pools().update(i, fresh)
                        &&& exists|mid: BuddyAllocator|
                            {
                                &&& b.allocated(mid, PGSZ, PGSZ)
                                &&& r == ok_unit(mid.allocate_result(fit as usize, al as usize))
                                &&& r is Ok ==> mid.allocated(
                                    final(self).page_allocator(),
                                    fit as usize,
                                    al as usize,
                                )
                                &&& r is Err ==> final(self).page_allocator() == mid
                            }
                    }
                }
            }),
    {
        let asked = layout.size();
        proof {
            lemma_fit_size(asked);
        }
        let layout = match Self::align_layout(layout) {
            Ok(l) => l,
            Err(_) => {
                return Err(());
            },
        };
        if layout.size() == 0 {
            return Ok(0);
        }
        let mut ptr: Option<MemPtr> = None;
        let ghost mid = self.buddy;
        if let Some(index) = find_pool(layout.size()) {
            ptr = self.allocate(index, layout);
            proof {
                mid = self.buddy;
                let s0 = old(self).pools()[index as int];
                if chunk_ready(s0, layout.bytes() as usize) {
                    lemma_align_stop_range(s0, 0, layout.bytes() as usize);
                    assert(old(self).pool@[index as int].wf());
                    assert(s0 == old(self).pool@[index as int]@);
                }
                if ptr is None {
                    assert(!chunk_ready(old(self).pools()[index as int], layout.bytes() as usize));
                    assert(old(self).page_allocator().allocated(mid, PGSZ, PGSZ));
                }
            }
        }
        if ptr.is_none() {
            ptr = match self.buddy.allocate(layout) {
                Ok(p) => Some(p),
                Err(_) => None,
            };
            proof {
                let fit = layout.bytes();
                if 0 < fit <= PGSZ {
                    assert(old(self).page_allocator().allocated(mid, PGSZ, PGSZ));
                }
            }
        }
        match ptr {
            Some(p) => Ok(p),
            None => Err(()),
        }
    }


    /// Puts the chunk at `ptr` back at the head of pool `index`.
    fn deallocate(&mut self, index: usize, ptr: MemPtr)
        requires
            old(self).wf(),
            index < POOL_COUNT,
            ptr != 0,
        ensures
            final(self).wf(),
            final(self).pools() == old(self).pools().update(
                index as int,
                seq![ptr] + old(self).pools()[index as int],
            ),
            final(self).page_allocator() == old(self).page_allocator(),
    {
        let ghost old_pools = self.pools();
        let mut list = self.pool.remove(index);
        assert(list@ == old_pools[index as int]);
        list.push(ptr);
        self.pool.insert(index, list);
        assert(self.pools() =~= old_pools.update(index as int, list@));
    }

    /// Whether `layout` is a rounded layout the allocator serves (see `regular_size`).
    pub fn is_aready_algin_for_pool(&self, layout: Layout) -> (r: bool)
        ensures
            r == regular_size(layout.bytes()),
    {
        let mut res = find_pool(layout.size()).is_some();
        if layout.size() > PGSZ && is_align(layout.size(), PGSZ) {
            res = true;
        }
        proof {
            lemma_exp2_values();
            lemma_exp2_is_pow2(12);
            lemma_align_exp2(layout.bytes() as usize, PGSZ);
        }
        res
    }

    /// Whether `allocate_fit` can serve `layout` without failing on the way: when the rounded
    /// size is that of a pool, the pool hands out a chunk or can be refilled from the page
    /// allocator. Nothing changes.
    pub fn can_allocate_fit(&self, layout: Layout) -> (r: bool)
        requires
            self.wf(),
        ensures
            r == ({
                let fit = fit_size(layout.bytes());
                let al = fit_align(layout.bytes(), layout.alignment());
                valid_layout(fit, al) && 0 < fit <= PGSZ ==> self.can_refill(
                    pool_index(fit),
                    fit as usize,
                )
            }),
    {
        let asked = layout.size();
        proof {
            lemma_fit_size(asked);
        }
        let layout = match Self::align_layout(layout) {
            Ok(l) => l,
            Err(_) => {
                return true;
            },
        };
        let fit = layout.size();
        if fit == 0 || fit > PGSZ {
            return true;
        }
        let index = match find_pool(fit) {
            Some(i) => i,
            None => {
                assert(false);
                return true;
            },
        };
        assert(self.pools()[index as int] == self.pool@[index as int]@);
        if self.pool[index].can_pop_algin(fit) {
            return true;
        }
        proof {
            lemma_exp2_values();
            lemma_exp2_is_pow2(12);
        }
        let page_layout = match Layout::from_size_align(PGSZ, PGSZ) {
            Ok(l) => l,
            Err(_) => {
                assert(false);
                return true;
            },
        };
        self.pool[index].len() <= 1 && self.buddy.can_allocate(page_layout)
    }

    /// Whether `deallocate_fit` accepts the block at `ptr` for `layout`: the rounded layout is
    /// valid, a chunk is not at address `0`, and the page allocator frees a larger block.
    /// Nothing changes.
    pub fn can_deallocate_fit(&self, ptr: MemPtr, layout: Layout) -> (r: bool)
        requires
            self.wf(),
        ensures
            r == ({
                let fit = fit_size(layout.bytes());
                let al = fit_align(layout.bytes(), layout.alignment());
                &&& valid_layout(fit, al)
                &&& 0 < fit <= PGSZ ==> ptr != 0
                &&& fit > PGSZ ==> self.page_allocator().deallocate_result(ptr, fit as usize) is Ok
            }),
    {
        let asked = layout.size();
        proof {
            lemma_fit_size(asked);
        }
        let layout = match Self::align_layout(layout) {
            Ok(l) => l,
            Err(_) => {
                return false;
            },
        };
        let fit = layout.size();
        if fit == 0 {
            true
        } else if fit <= PGSZ {
            ptr != 0
        } else {
            self.buddy.can_deallocate(ptr, fit)
        }
    }

    /// Frees the block at `ptr` that was allocated for `layout`. The layout is rounded as in
    /// `allocate_fit`; an empty request frees nothing, a chunk goes back to the head of its
    /// pool and a larger block goes back to the page allocator.
    pub fn deallocate_fit(&mut self, ptr: MemPtr, layout: Layout)
        requires
            old(self).wf(),
            ({
                let fit = fit_size(layout.bytes());
                let al = fit_align(layout.bytes(), layout.alignment());
                &&& valid_layout(fit, al)
                &&& 0 < fit <= PGSZ ==> ptr != 0
                &&& fit > PGSZ ==> old(self).page_allocator().deallocate_result(ptr, fit as usize) is Ok
            }),
        ensures
            final(self).wf(),
            ({
                let fit = fit_size(layout.bytes());
                let b = old(self).page_allocator();
                &&& fit == 0 ==> *final(self) == *old(self)
                &&& 0 < fit <= PGSZ ==> {
                    &&& final(self).pools() == old(self).pools().update(
                        pool_index(fit),
                        seq![ptr] + old(self).pools()[pool_index(fit)],
                    )
                    &&& final(self).page_allocator() == b
                }
                &&& fit > PGSZ ==> {
                    &&& final(self).pools() == old(self).pools()
                    &&& b.deallocate_result(ptr, fit as usize) matches Ok(m) && b.deallocated(
                        final(self).page_allocator(),
                        m as int,
                        fit as usize,
                    )
                }
            }),
    {
        let asked = layout.size();
        proof {
            lemma_fit_size(asked);
        }
        let layout = match Self::align_layout(layout) {
            Ok(l) => l,
            Err(_) => {
                assert(false);
                return ;
            },
        };
        if layout.size() == 0 {
            return ;
        }
        if !self.is_aready_algin_for_pool(layout) {
            assert(false);
            return ;
        }
        if let Some(index) = find_pool(layout.size()) {
            self.deallocate(index, ptr);
        }
        if layout.size() > PGSZ {
            match self.buddy.deallocate(ptr, layout.size()) {
                Ok(_) => {},
                Err(_) => {
                    assert(false);
                },
            }
        }
    }

}

/// A chunk that `deallocate_fit` puts back, when aligned to its rounded size, is the next
/// chunk `allocate_fit` hands out for the same layout, and that allocation leaves the pools
/// as they were before the chunk was freed.
pub proof fn law_alloc_after_free(sa: SlabAllocator, freed: SlabAllocator, ptr: usize, layout: Layout)
    requires
        sa.wf(),
        0 < fit_size(layout.bytes()) <= PGSZ,
        spec_is_align(ptr, fit_size(layout.bytes()) as usize),
        freed.pools() == sa.pools().update(
            pool_index(fit_size(layout.bytes())),
            seq![ptr] + sa.pools()[pool_index(fit_size(layout.bytes()))],
        ),
    ensures
        ({
            let fit = fit_size(layout.bytes());
            let i = pool_index(fit);
            let s = freed.pools()[i];
            let j = align_stop(s, fit as usize);
            &&& chunk_ready(s, fit as usize)
            &&& s[j] == ptr
            &&& freed.pools().update(i, s.subrange(j + 1, s.len() as int) + s.subrange(0, j))
                == sa.pools()
        }),
{
    let fit = fit_size(layout.bytes());
    let i = pool_index(fit);
    lemma_exp2_values();
    lemma_exp2_is_pow2(12);
    lemma_align_exp2(layout.bytes() as usize, PGSZ);
    assert(0 <= i < POOL_COUNT);
    assert(sa.pools().len() == POOL_COUNT);
    let s = freed.pools()[i];
    assert(s == seq![ptr] + sa.pools()[i]);
    law_pop_algin_after_push(sa.pools()[i], ptr, fit as usize);
    assert(freed.pools().update(i, sa.pools()[i]) =~= sa.pools());
}

/// When `allocate_fit` refills the pool of a small layout from a fresh page, it hands out the
/// first chunk of that page, a page-aligned address, and leaves the rest of the page's chunks
/// in address order.
pub proof fn law_refill_takes_page_start(sa: SlabAllocator, layout: Layout)
    requires
        sa.wf(),
        valid_layout(layout.bytes(), layout.alignment()),
        0 < fit_size(layout.bytes()) <= PGSZ,
        fit_align(layout.bytes(), layout.alignment()) <= PAGE_SIZE,
        !chunk_ready(sa.pools()[pool_index(fit_size(layout.bytes()))], fit_size(layout.bytes()) as usize),
        sa.can_refill(pool_index(fit_size(layout.bytes())), fit_size(layout.bytes()) as usize),
    ensures
        ({
            let fit = fit_size(layout.bytes());
            let p = page_of(sa.page_allocator().allocate_result(PGSZ, PGSZ));
            let fresh = chunks(p as int, p + PGSZ, fit as int);
            &&& p % PGSZ == 0
            &&& p + PGSZ <= usize::MAX
            &&& fresh[0] == p
            &&& fresh.subrange(1, fresh.len() as int) == chunks(p + fit, p + PGSZ, fit as int)
        }),
{
    let fit = fit_size(layout.bytes());
    let b = sa.page_allocator();
    let p = page_of(b.allocate_result(PGSZ, PGSZ));
    lemma_exp2_values();
    lemma_exp2_is_pow2(12);
    lemma_fit_size(layout.bytes() as usize);
    lemma_align_exp2(PGSZ, PGSZ);
    assert(b.allocate_result(PGSZ, PGSZ) is Ok);
    // the page lies in the zone, whose start is page-aligned
    crate::buddy::buddy_allocator::lemma_alloc_in_zone(b, PGSZ, PGSZ);
    b.lemma_zone();
    let z = b.zone_start() as int;
    assert((p - z) % (PGSZ as int) == 0);
    assert(z % (PGSZ as int) == 0);
    assert(p % PGSZ == 0) by {
        vstd::arithmetic::div_mod::lemma_add_mod_noop(p - z, z, PGSZ as int);
    }
    let fresh = chunks(p as int, p + PGSZ, fit as int);
    let rest = chunks(p + fit, p + PGSZ, fit as int);
    assert(fit as int * (PGSZ as int / fit as int) == PGSZ) by {
        assert(fit == 32 || fit == 64 || fit == 128 || fit == 256 || fit == 512 || fit == 1024
            || fit == 2048 || fit == 4096);
    }
    assert(fresh.len() == PGSZ as int / fit as int);
    assert(rest.len() == fresh.len() - 1) by {
        vstd::arithmetic::div_mod::lemma_fundamental_div_mod_converse(
            PGSZ as int - fit,
            fit as int,
            PGSZ as int / fit as int - 1,
            0,
        );
    }
    assert forall|i: int| 0 <= i < rest.len() implies #[trigger] rest[i] == fresh.subrange(
        1,
        fresh.len() as int,
    )[i] by {
        assert(p + fit + i * fit == p + (i + 1) * fit) by (nonlinear_arith);
    }
    assert(fresh.subrange(1, fresh.len() as int) =~= rest);
}

/// While the pool of a small layout holds the chunks of a page after its first `k`, in address
/// order, `allocate_fit` hands out chunk `k` of the page and leaves the chunks after it.
pub proof fn law_next_chunk_of_page(sa: SlabAllocator, layout: Layout, page: usize, k: int)
    requires
        sa.wf(),
        valid_layout(layout.bytes(), layout.alignment()),
        0 < fit_size(layout.bytes()) <= PGSZ,
        page % PGSZ == 0,
        page + PGSZ <= usize::MAX,
        0 <= k,
        (k + 1) * fit_size(layout.bytes()) <= PGSZ,
        sa.pools()[pool_index(fit_size(layout.bytes()))] == chunks(
            page + k * fit_size(layout.bytes()),
            page + PGSZ,
            fit_size(layout.bytes()) as int,
        ),
    ensures
        ({
            let fit = fit_size(layout.bytes());
            let s = sa.pools()[pool_index(fit)];
            let j = align_stop(s, fit as usize);
            &&& chunk_ready(s, fit as usize)
            &&& j == 0
            &&& s[j] == page + k * fit
            &&& s.subrange(j + 1, s.len() as int) + s.subrange(0, j) == chunks(
                page + (k + 1) * fit,
                page + PGSZ,
                fit as int,
            )
        }),
{
    let fit = fit_size(layout.bytes());
    let f = fit as int;
    let s = sa.pools()[pool_index(fit)];
    let rest = chunks(page + (k + 1) * fit, page + PGSZ, f);
    lemma_exp2_values();
    lemma_exp2_is_pow2(12);
    lemma_fit_size(layout.bytes() as usize);
    assert(fit == 32 || fit == 64 || fit == 128 || fit == 256 || fit == 512 || fit == 1024
        || fit == 2048 || fit == 4096);
    assert(is_pow2(fit)) by {
        lemma_exp2_is_pow2(5);
        lemma_exp2_is_pow2(6);
        lemma_exp2_is_pow2(7);
        lemma_exp2_is_pow2(8);
        lemma_exp2_is_pow2(9);
        lemma_exp2_is_pow2(10);
        lemma_exp2_is_pow2(11);
    }
    let q = PGSZ as int / f;
    assert(f * q == PGSZ);
    // the pool holds `q - k` chunks, at least one
    assert(s.len() == q - k) by {
        vstd::arithmetic::div_mod::lemma_fundamental_div_mod_converse(PGSZ as int - k * f, f, q - k, 0);
        assert(PGSZ as int - k * f == f * (q - k) + 0) by (nonlinear_arith)
            requires f * q == PGSZ;
    }
    assert(q - k >= 1) by (nonlinear_arith)
        requires f * q == 4096, (k + 1) * f <= 4096, f > 0;
    assert(rest.len() == q - k - 1) by {
        vstd::arithmetic::div_mod::lemma_fundamental_div_mod_converse(
            PGSZ as int - (k + 1) * f,
            f,
            q - k - 1,
            0,
        );
        assert(PGSZ as int - (k + 1) * f == f * (q - k - 1) + 0) by (nonlinear_arith)
            requires f * q == PGSZ;
    }
    // its first chunk is aligned to the chunk size
    let a = (page + k * f) as usize;
    assert(s[0] == a);
    lemma_page_multiple(page, fit as usize);
    lemma_align_exp2(a, fit as usize);
    assert(a % fit as usize == 0) by {
        let m = page as int / f;
        assert(page == m * f);
        assert(a == (m + k) * f) by (nonlinear_arith)
            requires page == m * f, a == page + k * f;
        vstd::arithmetic::div_mod::lemma_mod_multiples_basic(m + k, f);
    }
    assert(align_stop_from(s, 0, fit as usize) == 0);
    assert forall|i: int| 0 <= i < rest.len() implies #[trigger] rest[i] == s.subrange(
        1,
        s.len() as int,
    )[i] by {
        assert(page + (k + 1) * f + i * f == page + k * f + (i + 1) * f) by (nonlinear_arith);
    }
    assert(s.subrange(1, s.len() as int) + s.subrange(0, 0) =~= rest);
}

/// When a pool holds no chunk twice, the chunk that `allocate_fit` takes from it is not in
/// the pool it leaves, which again holds no chunk twice.
pub proof fn law_chunk_leaves_pool(s: Seq<usize>, fit: usize)
    requires
        s.no_duplicates(),
        chunk_ready(s, fit),
    ensures
        ({
            let j = align_stop(s, fit);
            let rest = s.subrange(j + 1, s.len() as int) + s.subrange(0, j);
            &&& !rest.contains(s[j])
            &&& rest.no_duplicates()
        }),
{
    let j = align_stop(s, fit);
    lemma_align_stop_range(s, 0, fit);
    let a = s.subrange(j + 1, s.len() as int);
    let b = s.subrange(0, j);
    let rest = a + b;
    assert forall|i: int| 0 <= i < rest.len() implies #[trigger] rest[i] != s[j] by {
        if i < a.len() {
            assert(rest[i] == s[j + 1 + i]);
        } else {
            assert(rest[i] == s[i - a.len()]);
        }
    }
    assert forall|i: int, k: int| 0 <= i < rest.len() && 0 <= k < rest.len() && i != k implies
        #[trigger] rest[i] != #[trigger] rest[k] by {
        let si = if i < a.len() { j + 1 + i } else { i - a.len() };
        let sk = if k < a.len() { j + 1 + k } else { k - a.len() };
        assert(rest[i] == s[si]);
        assert(rest[k] == s[sk]);
    }
}

/// The chunks of `fit` bytes cut from a page are pairwise distinct, so the first one, which a
/// refill hands out, is not among those it leaves in the pool.
pub proof fn law_refill_chunks_distinct(p: usize, fit: usize)
    requires
        0 < fit <= PGSZ,
        p + PGSZ <= usize::MAX,
    ensures
        ({
            let fresh = chunks(p as int, p + PGSZ, fit as int);
            &&& fresh.no_duplicates()
            &&& !fresh.subrange(1, fresh.len() as int).contains(p)
        }),
{
    let fresh = chunks(p as int, p + PGSZ, fit as int);
    let f = fit as int;
    assert forall|i: int| 0 <= i < fresh.len() implies #[trigger] fresh[i] == p + i * f by {
        assert(i < PGSZ as int / f);
        assert(i * f < PGSZ) by (nonlinear_arith)
            requires 0 <= i < 4096int / f, f > 0;
    }
    assert forall|i: int, k: int| 0 <= i < fresh.len() && 0 <= k < fresh.len() && i != k implies
        #[trigger] fresh[i] != #[trigger] fresh[k] by {
        assert(i * f != k * f) by (nonlinear_arith)
            requires i != k, f > 0;
    }
    assert(fresh.no_duplicates());
    assert(PGSZ as int / f >= 1) by (nonlinear_arith)
        requires 0 < f <= 4096;
    assert(fresh[0] == p);
    let rest = fresh.subrange(1, fresh.len() as int);
    assert forall|i: int| 0 <= i < rest.len() implies #[trigger] rest[i] != p by {
        assert(rest[i] == fresh[i + 1]);
        assert(fresh[i + 1] != fresh[0]);
    }
    assert(!rest.contains(p));
}

/// Whether a rounded layout of `size` bytes is one the allocator serves: a pool size, or a
/// multiple of a page beyond a page.
pub open spec fn regular_size(size: nat) -> bool {
    pool_index(size) >= 0 || (size > PGSZ && size % PGSZ as nat == 0)
}

/// A multiple of a page is a multiple of each pool size.
proof fn lemma_page_multiple(x: usize, sz: usize)
    requires
        x % PGSZ == 0,
        sz == 32 || sz == 64 || sz == 128 || sz == 256 || sz == 512 || sz == 1024 || sz == 2048
            || sz == 4096,
    ensures
        x % sz == 0,
{
    let q = x / PGSZ;
    assert(x == q * 4096);
    let m = 4096usize / sz;
    assert(4096 == m * sz);
    assert(x == (q * m) * sz) by (nonlinear_arith)
        requires x == q * 4096, 4096 == m * sz;
    vstd::arithmetic::div_mod::lemma_mod_multiples_basic((q * m) as int, sz as int);
}

} // verus!
