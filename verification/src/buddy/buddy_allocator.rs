//! The page allocator. It manages a zone of whole pages through a complete binary tree:
//! a request of `n` bytes is served by a free block of the tree's level for `n` rounded up
//! to whole pages. The tree itself takes the first `ZONE_PAGES` pages of the zone.
use vstd::prelude::*;

use super::def::{MemPtr, MAX_PAGES, PAGE_SIZE, ZONE_PAGES};
use crate::align::{align_down, align_up, is_align, spec_align_down, spec_align_up, spec_is_align};
use crate::bintree::def::{MAX_LEAF, MAX_LEVEL, MAX_SIZE, MIN_SIZE};
use crate::bintree::index::{depth_first, exp2, floor_pow2, in_subtree_at, leftmost_leaf, log2};
use crate::bintree::tree::{
    first_match, first_unused, halvings, lemma_first_match_at, lemma_first_match_range,
    lemma_first_unused_range, lemma_halvings_cover, lemma_in_own_subtree,
    lemma_leftmost_leaf, lemma_node_value_level, lemma_not_in_subtree,
    lemma_halvings_exp2, marked_subtree, node_value, range_clear, size_depth,
    tree_pages, BinTree, TreeErr,
};
use crate::bintree::treemap::map_bits;
use crate::layout::Layout;

verus! {

/// Errors of the page allocator.
#[derive(Debug, Clone, Copy, PartialEq, Eq, Structural)]
pub enum BuddyErr {
    /// No free page is left.
    Empty,
    /// Fewer free pages are left than the request asks for.
    NotEnough,
    /// No block fits the request.
    NotFound,
    /// The size does not fit the tree (or, from `deallocate`, the address is not page-aligned).
    WrongSize,
    /// The size passed to `deallocate` is not a multiple of a page.
    WrongAddr,
}

impl From<TreeErr> for BuddyErr {
    fn from(value: TreeErr) -> (r: Self) {
        match value {
            TreeErr::WrongSize => Self::WrongSize,
            TreeErr::NotFound => Self::NotFound,
            TreeErr::NotEnough => Self::NotEnough,
        }
    }
}

impl vstd::std_specs::convert::FromSpecImpl<TreeErr> for BuddyErr {
    open spec fn obeys_from_spec() -> bool {
        true
    }

    open spec fn from_spec(v: TreeErr) -> Self {
        match v {
            TreeErr::WrongSize => BuddyErr::WrongSize,
            TreeErr::NotFound => BuddyErr::NotFound,
            TreeErr::NotEnough => BuddyErr::NotEnough,
        }
    }
}

/// The bytes of the block that a request of `size` bytes takes: `size` rounded up to whole
/// pages, and one page for an empty request.
pub open spec fn block_bytes(size: usize) -> int {
    if size == 0 {
        PAGE_SIZE as int
    } else {
        spec_align_up(size, PAGE_SIZE)
    }
}

/// The pages of the block that a request of `size` bytes takes.
pub open spec fn block_pages(size: usize) -> int {
    block_bytes(size) / PAGE_SIZE as int
}

/// The level of `t` whose blocks hold `size` bytes.
pub open spec fn level_of(t: BinTree, size: usize) -> int {
    t.lvl() - size_depth(size)
}

/// Whether node `k` can take a block of `n` pages: it is unused and the `n` leaves from its
/// leftmost leaf on are free.
pub open spec fn node_fits(bits: Seq<bool>, k: int, max_node: int, n: int) -> bool {
    !bits[k] && range_clear(bits, leftmost_leaf(k, max_node), n)
}

/// The first node in `from..end` that fits `n` pages and starts at a multiple of `align`, or
/// `end` when there is none.
pub open spec fn first_aligned_fit(
    values: Seq<usize>,
    bits: Seq<bool>,
    from: int,
    end: int,
    max_node: int,
    n: int,
    align: usize,
) -> int
    decreases end - from,
{
    if from >= end {
        end
    } else if node_fits(bits, from, max_node, n) && spec_is_align(values[from], align) {
        from
    } else {
        first_aligned_fit(values, bits, from + 1, end, max_node, n, align)
    }
}

/// The end of the level that `allocate` searches for `size` bytes (the first node after it).
pub open spec fn alloc_end(t: BinTree, size: usize) -> int {
    depth_first(level_of(t, block_bytes(size) as usize) as nat)
}

/// The node that `allocate` takes for `size` bytes aligned to `align`: the first node of the
/// level of the block that fits the block's pages and starts at a multiple of `align`
/// (`alloc_end` when there is none).
pub open spec fn alloc_node(t: BinTree, size: usize, align: usize) -> int {
    let lm = level_of(t, block_bytes(size) as usize) as nat;
    first_aligned_fit(
        t.values(),
        t.bits(),
        depth_first((lm - 1) as nat),
        depth_first(lm),
        t.spec_max_node(),
        block_pages(size),
        align,
    )
}

/// Pages of the tree built by `init` over the pages from `start` to `end` (both page-aligned,
/// `end` counted as a page).
pub open spec fn init_pages(start: int, end: int) -> nat {
    floor_pow2(((end - start) / PAGE_SIZE as int + 1) as nat)
}

/// Number of pages from `bottom` to `top`, both rounded inwards to whole pages, `top`'s
/// page included.
pub open spec fn zone_page_count(bottom: usize, top: usize) -> int {
    (spec_align_down(top, PAGE_SIZE) - spec_align_up(bottom, PAGE_SIZE)) / PAGE_SIZE as int + 1
}

/// Page allocator over a zone of pages.
/// Example:
/// ```
/// let mut buddy = BuddyAllocator::new();
/// buddy.init(bottom, top);
/// let addr1 = buddy.allocate(Layout::from_size_align(PAGE_SIZE, PAGE_SIZE).unwrap());
/// let addr2 = buddy.allocate(Layout::from_size_align(PAGE_SIZE << 1, PAGE_SIZE).unwrap());
/// let _ = buddy.deallocate(addr1.unwrap(), PAGE_SIZE);
/// ```
#[derive(Debug)]
pub struct BuddyAllocator {
    zone: BinTree,
    zone_addr: usize,
    page_counts: usize,
}

impl BuddyAllocator {
    /// The tree of blocks.
    pub closed spec fn tree(&self) -> BinTree {
        self.zone
    }

    /// Address of the first page of the zone (`0` before `init`).
    pub closed spec fn zone_start(&self) -> nat {
        self.zone_addr as nat
    }

    /// Count of free pages that the allocator keeps.
    pub closed spec fn free_pages(&self) -> nat {
        self.page_counts as nat
    }

    /// Whether `init` has set up a zone.
    pub open spec fn is_init(&self) -> bool {
        self.zone_start() != 0
    }

    /// Pages of the tree.
    pub open spec fn zone_pages(&self) -> nat {
        exp2((self.tree().lvl() - 1) as nat)
    }

    /// The allocator's invariant: the tree has at most `MAX_LEVEL` levels; before `init`
    /// nothing is free and the tree has no level; after it the tree has at least one level over a page-aligned zone that
    /// fits in memory, the free count leaves the tree's own pages out, and each node records
    /// the start of its block.
    pub closed spec fn wf(&self) -> bool {
        &&& self.zone.wf()
        &&& self.zone.lvl() <= MAX_LEVEL
        &&& self.zone_addr == 0 ==> self.page_counts == 0 && self.zone.lvl() == 0
        &&& self.zone_addr != 0 ==> {
            let pages = exp2((self.zone.lvl() - 1) as nat);
            &&& 1 <= self.zone.lvl() <= MAX_LEVEL
            &&& self.page_counts + ZONE_PAGES <= pages
            &&& self.zone_addr % PAGE_SIZE == 0
            &&& self.zone_addr + pages * PAGE_SIZE <= usize::MAX
            &&& forall|k: int|
                0 <= k < 2 * pages - 1 ==> #[trigger] self.zone.values()[k] == node_value(
                    self.zone_addr as int,
                    (pages * PAGE_SIZE) as int,
                    k,
                )
        }
    }

    /// The state that `init` leaves for the pages from `bottom` to `top`: the zone starts at
    /// the first whole page, the tree has the largest power of two `fp` of the pages, each node
    /// records the start of its block, the first `ZONE_PAGES` leaves are used, every other
    /// node is free, and `fp - ZONE_PAGES` pages are counted free.
    pub open spec fn is_set_up(&self, bottom: usize, top: usize) -> bool {
        let start = spec_align_up(bottom, PAGE_SIZE);
        let fp = init_pages(start, spec_align_down(top, PAGE_SIZE) as int);
        &&& self.zone_start() == start
        &&& self.free_pages() == fp - ZONE_PAGES
        &&& self.tree().lvl() == log2(fp) + 1
        &&& self.zone_pages() == fp
        &&& forall|k: int|
            0 <= k < 2 * fp - 1 ==> #[trigger] self.tree().values()[k] == node_value(
                start,
                (fp * PAGE_SIZE) as int,
                k,
            )
        &&& forall|k: int|
            0 <= k < map_bits() ==> #[trigger] self.tree().bits()[k] == (k >= 2 * fp - 1 || fp - 1
                <= k < fp - 1 + ZONE_PAGES)
    }

    /// Whether `addr` starts a page of the zone.
    pub open spec fn in_zone(&self, addr: int) -> bool {
        &&& self.is_init()
        &&& self.zone_start() <= addr
        &&& addr + PAGE_SIZE <= self.zone_start() + self.zone_pages() * PAGE_SIZE
        &&& (addr - self.zone_start()) % (PAGE_SIZE as int) == 0
    }

    /// The leaf of the tree for the page at `addr` of the zone.
    pub open spec fn page_leaf(&self, addr: int) -> int {
        (self.zone_pages() - 1) + (addr - self.zone_start()) / PAGE_SIZE as int
    }

    /// Whether the page at `addr` of the zone is marked used.
    pub open spec fn page_used(&self, addr: int) -> bool {
        self.tree().bits()[self.page_leaf(addr)]
    }

    /// What `allocate` returns for `size` bytes aligned to `align`.
    pub open spec fn allocate_result(&self, size: usize, align: usize) -> Result<MemPtr, BuddyErr> {
        let t = self.tree();
        if self.free_pages() == 0 {
            Err(BuddyErr::Empty)
        } else if block_pages(size) > self.free_pages() {
            Err(BuddyErr::NotEnough)
        } else if block_bytes(size) > MAX_SIZE {
            Err(BuddyErr::WrongSize)
        } else if alloc_node(t, size, align) < alloc_end(t, size) {
            Ok(t.values()[alloc_node(t, size, align)])
        } else {
            Err(BuddyErr::NotFound)
        }
    }

    /// The state `after` a successful `allocate` of `size` bytes aligned to `align`: the
    /// subtree of `alloc_node` is marked used and the pages of the block are no longer
    /// counted free; nothing else changes.
    pub open spec fn allocated(&self, after: Self, size: usize, align: usize) -> bool {
        let t = self.tree();
        &&& after.tree().bits() == marked_subtree(
            t.bits(),
            alloc_node(t, size, align),
            t.spec_max_node(),
            true,
        )
        &&& after.tree().values() == t.values()
        &&& after.tree().lvl() == t.lvl()
        &&& after.zone_start() == self.zone_start()
        &&& after.free_pages() == self.free_pages() - block_pages(size)
    }

    /// The node that `deallocate` looks for: the first used node of the level of `size` that
    /// starts at `addr` (the end of that level when there is none).
    pub open spec fn dealloc_node(&self, addr: usize, size: usize) -> int {
        let t = self.tree();
        let level = (t.lvl() - size_depth(size)) as nat;
        first_match(t.values(), t.bits(), depth_first((level - 1) as nat), exp2(level) - 1, addr, true)
    }

    /// What `deallocate` returns for the block of `size` bytes at `addr`.
    pub open spec fn deallocate_result(&self, addr: usize, size: usize) -> Result<usize, BuddyErr> {
        let t = self.tree();
        let level = (t.lvl() - size_depth(size)) as nat;
        if !spec_is_align(addr, PAGE_SIZE) {
            Err(BuddyErr::WrongSize)
        } else if !spec_is_align(size, PAGE_SIZE) {
            Err(BuddyErr::WrongAddr)
        } else if size > MAX_SIZE || size_depth(size) >= t.lvl() {
            Err(BuddyErr::WrongSize)
        } else if self.dealloc_node(addr, size) == exp2(level) - 1 {
            Err(BuddyErr::NotFound)
        } else {
            Ok(self.dealloc_node(addr, size) as usize)
        }
    }

    /// The free count after `n` pages come back: it grows by `n`, but never beyond the pages
    /// of the zone outside the tree's own.
    pub open spec fn returned_pages(&self, n: int) -> int {
        let cap = self.zone_pages() - ZONE_PAGES;
        if self.free_pages() + n > cap {
            cap
        } else {
            self.free_pages() + n
        }
    }

    /// The state `after` freeing node `m`, a block of `size` bytes: its subtree is marked
    /// unused and the block's pages (`block_pages(size)`, the pages `allocate` counts for a
    /// request of `size` bytes) are counted free again (see `returned_pages`); nothing else
    /// changes.
    pub open spec fn deallocated(&self, after: Self, m: int, size: usize) -> bool {
        let t = self.tree();
        &&& after.tree().bits() == marked_subtree(t.bits(), m, t.spec_max_node(), false)
        &&& after.tree().values() == t.values()
        &&& after.tree().lvl() == t.lvl()
        &&& after.zone_start() == self.zone_start()
        &&& after.free_pages() == self.returned_pages(block_pages(size))
    }

    /// A set-up zone starts at a nonzero page-aligned address and fits in memory.
    pub proof fn lemma_zone(&self)
        requires
            self.wf(),
            self.is_init(),
        ensures
            self.zone_start() % PAGE_SIZE as nat == 0,
            self.zone_start() + self.zone_pages() * PAGE_SIZE <= usize::MAX,
            1 <= self.tree().lvl() <= MAX_LEVEL,
    {
    }

    /// An allocator with no zone yet.
    pub fn new() -> (r: Self)
        ensures
            r.wf(),
            !r.is_init(),
            r.free_pages() == 0,
    {
        Self { zone: BinTree::new(), zone_addr: 0, page_counts: 0 }
    }

    /// Address of the first page of the zone.
    pub fn zone(&self) -> (r: MemPtr)
        ensures
            r == self.zone_start(),
    {
        self.zone_addr
    }

    /// Sets up the zone over the pages from `bottom` to `top`, both rounded inwards to whole
    /// pages; the tree keeps the largest power of two of them, the first `ZONE_PAGES` of
    /// which hold the tree and are marked used.
    fn setup(&mut self, bottom: MemPtr, top: MemPtr)
        requires
            0 < bottom,
            spec_align_up(bottom, PAGE_SIZE) <= spec_align_down(top, PAGE_SIZE),
            init_pages(spec_align_up(bottom, PAGE_SIZE), spec_align_down(top, PAGE_SIZE) as int)
                <= MAX_LEAF,
            ZONE_PAGES <= init_pages(
                spec_align_up(bottom, PAGE_SIZE),
                spec_align_down(top, PAGE_SIZE) as int,
            ),
            spec_align_up(bottom, PAGE_SIZE) + init_pages(
                spec_align_up(bottom, PAGE_SIZE),
                spec_align_down(top, PAGE_SIZE) as int,
            ) * PAGE_SIZE <= usize::MAX,
        ensures
            final(self).wf(),
            final(self).is_set_up(bottom, top),
    {
        proof {
            vstd::arithmetic::power2::lemma2_to64();
            crate::align::lemma_align_pow2(bottom, 12);
            crate::align::lemma_align_pow2(top, 12);
        }
        let start = align_up(bottom, PAGE_SIZE);
        let end = align_down(top, PAGE_SIZE);
        let page_counts = (end - start) / PAGE_SIZE + 1;
        let ghost fp = floor_pow2(page_counts as nat);
        proof {
            assert((PAGE_SIZE * page_counts) as nat / MIN_SIZE as nat == page_counts as nat);
            assert(tree_pages((PAGE_SIZE * page_counts) as usize) == fp);
            crate::bintree::index::lemma_floor_pow2(page_counts as nat);
            crate::bintree::index::lemma_is_pow2_exp2(fp);
            crate::bintree::index::lemma_exp2_values();
            if log2(fp) > 10 {
                crate::bintree::index::lemma_exp2_mono(11, log2(fp));
            }
        }
        let mut zone = BinTree::new();
        let r = zone.init(start, PAGE_SIZE * page_counts);
        let counts = match r {
            Ok(c) => c,
            Err(_) => {
                assert(false);
                0
            },
        };
        proof {
            assert(((zone.lvl() - 1) as nat) == log2(fp));
        }
        let index = zone.get_index(zone.level());
        let mut i: usize = 0;
        while i < ZONE_PAGES
            invariant
                zone.wf(),
                i <= ZONE_PAGES,
                index == fp - 1,
                fp >= ZONE_PAGES,
                fp <= MAX_LEAF,
                zone.lvl() == log2(fp) + 1,
                forall|k: int|
                    0 <= k < 2 * fp - 1 ==> #[trigger] zone.values()[k] == node_value(
                        start as int,
                        (fp * PAGE_SIZE) as int,
                        k,
                    ),
                forall|k: int|
                    0 <= k < map_bits() ==> #[trigger] zone.bits()[k] == (k >= 2 * fp - 1 || fp - 1
                        <= k < fp - 1 + i),
            decreases ZONE_PAGES - i,
        {
            proof {
                zone.lemma_wf_lens();
            }
            zone.use_page(index + i);
            i = i + 1;
        }
        self.zone = zone;
        self.zone_addr = start;
        self.page_counts = counts - ZONE_PAGES;
    }

    /// Whether `init` accepts the pages from `bottom` to `top`: `bottom` is not null, at least
    /// one whole page lies between them, there are at most `MAX_PAGES` pages, the tree keeps
    /// at least `ZONE_PAGES` of them and its zone fits in memory.
    pub fn can_init(bottom: MemPtr, top: MemPtr) -> (r: bool)
        ensures
            r == (0 < bottom && spec_align_up(bottom, PAGE_SIZE) <= spec_align_down(top, PAGE_SIZE)
                && zone_page_count(bottom, top) <= MAX_PAGES && ZONE_PAGES <= init_pages(
                spec_align_up(bottom, PAGE_SIZE),
                spec_align_down(top, PAGE_SIZE) as int,
            ) && spec_align_up(bottom, PAGE_SIZE) + init_pages(
                spec_align_up(bottom, PAGE_SIZE),
                spec_align_down(top, PAGE_SIZE) as int,
            ) * PAGE_SIZE <= usize::MAX),
    {
        proof {
            vstd::arithmetic::power2::lemma2_to64();
            crate::align::lemma_align_pow2(bottom, 12);
            crate::align::lemma_align_pow2(top, 12);
        }
        if bottom == 0 {
            return false;
        }
        if !is_align(bottom, PAGE_SIZE) && bottom > usize::MAX - PAGE_SIZE {
            return false;
        }
        let start = align_up(bottom, PAGE_SIZE);
        let end = align_down(top, PAGE_SIZE);
        if start > end {
            return false;
        }
        let count = (end - start) / PAGE_SIZE + 1;
        if count > MAX_PAGES {
            return false;
        }
        let mut fp = count;
        while fp > 0 && !crate::bintree::index::is_power_of_two(fp)
            invariant
                fp <= count,
                floor_pow2(fp as nat) == floor_pow2(count as nat),
            decreases fp,
        {
            fp = fp - 1;
        }
        proof {
            crate::bintree::index::lemma_floor_pow2(count as nat);
        }
        fp >= ZONE_PAGES && start <= usize::MAX - fp * PAGE_SIZE
    }

    /// Sets up the zone over the pages from `bottom` to `top` (see `is_set_up`). The zone
    /// holds at most `MAX_PAGES` pages.
    pub fn init(&mut self, bottom: MemPtr, top: MemPtr)
        requires
            0 < bottom,
            spec_align_up(bottom, PAGE_SIZE) <= spec_align_down(top, PAGE_SIZE),
            zone_page_count(bottom, top) <= MAX_PAGES,
            ZONE_PAGES <= init_pages(
                spec_align_up(bottom, PAGE_SIZE),
                spec_align_down(top, PAGE_SIZE) as int,
            ),
            spec_align_up(bottom, PAGE_SIZE) + init_pages(
                spec_align_up(bottom, PAGE_SIZE),
                spec_align_down(top, PAGE_SIZE) as int,
            ) * PAGE_SIZE <= usize::MAX,
        ensures
            final(self).wf(),
            final(self).is_set_up(bottom, top),
    {
        proof {
            crate::bintree::index::lemma_floor_pow2(zone_page_count(bottom, top) as nat);
        }
        self.setup(bottom, top);
    }

    /// Sets up the zone over the pages from `bottom` to `top` (see `is_set_up`), with no bound
    /// on the pages but the tree's own.
    pub fn init_new(&mut self, bottom: MemPtr, top: MemPtr)
        requires
            0 < bottom,
            spec_align_up(bottom, PAGE_SIZE) <= spec_align_down(top, PAGE_SIZE),
            init_pages(spec_align_up(bottom, PAGE_SIZE), spec_align_down(top, PAGE_SIZE) as int)
                <= MAX_LEAF,
            ZONE_PAGES <= init_pages(
                spec_align_up(bottom, PAGE_SIZE),
                spec_align_down(top, PAGE_SIZE) as int,
            ),
            spec_align_up(bottom, PAGE_SIZE) + init_pages(
                spec_align_up(bottom, PAGE_SIZE),
                spec_align_down(top, PAGE_SIZE) as int,
            ) * PAGE_SIZE <= usize::MAX,
        ensures
            final(self).wf(),
            final(self).is_set_up(bottom, top),
    {
        self.setup(bottom, top);
    }

    /// The node that `allocate` marks for `layout`, found without changing anything.
    fn locate(&self, layout: Layout) -> (r: Result<usize, BuddyErr>)
        requires
            self.wf(),
        ensures
            r is Ok <==> self.allocate_result(layout.bytes() as usize, layout.alignment() as usize) is Ok,
            r matches Err(e) ==> self.allocate_result(
                layout.bytes() as usize,
                layout.alignment() as usize,
            ) == Err::<MemPtr, BuddyErr>(e),
            r matches Ok(i) ==> {
                &&& i == alloc_node(self.tree(), layout.bytes() as usize, layout.alignment() as usize)
                &&& i < crate::bintree::def::MAX_PAGES
                &&& self.in_zone(self.tree().values()[i as int] as int)
            },
    {
        let size = layout.size();
        let align_size = layout.align();
        proof {
            vstd::arithmetic::power2::lemma2_to64();
            crate::align::lemma_align_pow2(size, 12);
        }
        if self.page_counts == 0 {
            return Err(BuddyErr::Empty);
        }
        let mem_size = if size == 0 {
            PAGE_SIZE
        } else {
            align_up(size, PAGE_SIZE)
        };
        proof {
            crate::align::lemma_align_pow2(mem_size, 12);
        }
        let counts = mem_size / PAGE_SIZE;
        if counts > self.page_counts {
            return Err(BuddyErr::NotEnough);
        }
        if mem_size > MAX_SIZE {
            return Err(BuddyErr::WrongSize);
        }
        let ghost lvl = self.zone.lvl();
        let ghost t = self.zone;
        proof {
            assert(mem_size % PAGE_SIZE == 0);
            assert(mem_size == counts * PAGE_SIZE);
            assert(spec_align_down(mem_size, MIN_SIZE) == mem_size);
            assert(mem_size <= exp2((lvl - 1) as nat) * MIN_SIZE);
            lemma_halvings_exp2(mem_size as nat, (lvl - 1) as nat);
            crate::bintree::index::lemma_exp2_values();
            crate::bintree::index::lemma_exp2_mono(lvl, 11);
            crate::bintree::index::lemma_exp2_mono((lvl - size_depth(mem_size)) as nat, lvl);
            crate::bintree::index::lemma_exp2_mono(
                (lvl - size_depth(mem_size) - 1) as nat,
                (lvl - size_depth(mem_size)) as nat,
            );
            self.zone.lemma_wf_lens();
        }
        let level = self.zone.get_level(mem_size);
        let lo = self.zone.get_index(level);
        proof {
            assert(((level + 1) - 1) as nat == level as nat);
        }
        let end = self.zone.get_index(level + 1);
        let ghost n = counts as int;
        proof {
            lemma_first_unused_range(t.bits(), lo as int, end as int, t.spec_max_node(), n);
            lemma_skip_to_first_fit(
                t.values(),
                t.bits(),
                lo as int,
                end as int,
                t.spec_max_node(),
                n,
                align_size,
            );
            assert(alloc_end(t, size) == end);
        }
        let mut idx = match self.zone.find_unused(mem_size) {
            Ok(i) => i,
            Err(_) => {
                proof {
                    lemma_aligned_fit_range(t.values(), t.bits(), end as int, end as int, t.spec_max_node(), n, align_size);
                }
                return Err(BuddyErr::NotFound);
            },
        };
        let max_leaf = self.zone.max_node();
        while idx < end
            invariant
                self.wf(),
                self.zone == t,
                lo <= idx <= end,
                end <= 2047,
                max_leaf == t.spec_max_node(),
                max_leaf <= 2046,
                align_size >= 1,
                n == counts,
                first_aligned_fit(t.values(), t.bits(), lo as int, end as int, max_leaf as int, n, align_size)
                    == first_aligned_fit(t.values(), t.bits(), idx as int, end as int, max_leaf as int, n, align_size),
            ensures
                first_aligned_fit(t.values(), t.bits(), lo as int, end as int, max_leaf as int, n, align_size)
                    == idx,
            decreases end - idx,
        {
            let mut left_leaf = idx;
            while self.zone.find_left_child(left_leaf) <= max_leaf
                invariant
                    left_leaf <= 2046,
                    max_leaf <= 2046,
                    leftmost_leaf(left_leaf as int, max_leaf as int) == leftmost_leaf(
                        idx as int,
                        max_leaf as int,
                    ),
                decreases max_leaf - left_leaf,
            {
                left_leaf = self.zone.find_left_child(left_leaf);
            }
            proof {
                assert(leftmost_leaf(left_leaf as int, max_leaf as int) == left_leaf);
                self.zone.lemma_wf_lens();
            }
            if self.zone.can_use(idx, 1) && self.zone.can_use(left_leaf, counts) && is_align(
                self.zone.get_value(idx),
                align_size,
            ) {
                break ;
            }
            idx = idx + 1;
        }
        if idx == end {
            return Err(BuddyErr::NotFound);
        }
        proof {
            crate::bintree::tree::lemma_node_value_in_zone(
                self.zone_addr as int,
                (lvl - 1) as nat,
                idx as int,
            );
        }
        Ok(idx)
    }

    /// Allocates a block for `layout`. The block takes `block_pages` pages: the size rounded
    /// up to whole pages (one page for an empty request). It fails with `Empty` when no page
    /// is free, with `NotEnough` when fewer pages than the block's are, and with `WrongSize`
    /// when the block exceeds `MAX_SIZE`. Otherwise it takes the first node of the block's
    /// level that is unused, whose leaves for the block's pages are free and whose address is a
    /// multiple of `layout.align()` (`alloc_node`), and fails with `NotFound` when there is
    /// none. On success the node's subtree is marked used, the block's pages are no longer
    /// counted free, and the node's start address is returned.
    pub fn allocate(&mut self, layout: Layout) -> (r: Result<MemPtr, BuddyErr>)
        requires
            old(self).wf(),
        ensures
            final(self).wf(),
            r == old(self).allocate_result(layout.bytes() as usize, layout.alignment() as usize),
            r is Ok ==> old(self).allocated(
                *final(self),
                layout.bytes() as usize,
                layout.alignment() as usize,
            ),
            r is Err ==> *final(self) == *old(self),
            r matches Ok(a) ==> old(self).in_zone(a as int),
    {
        match self.locate(layout) {
            Ok(idx) => {
                let addr = self.zone.get_value(idx);
                let size = layout.size();
                proof {
                    vstd::arithmetic::power2::lemma2_to64();
                    crate::align::lemma_align_pow2(size, 12);
                }
                let counts = if size == 0 {
                    1
                } else {
                    align_up(size, PAGE_SIZE) / PAGE_SIZE
                };
                self.zone.use_mem(idx);
                self.page_counts = self.page_counts - counts;
                Ok(addr)
            },
            Err(e) => Err(e),
        }
    }

    /// Whether `allocate` succeeds for `layout`; nothing changes.
    pub fn can_allocate(&self, layout: Layout) -> (r: bool)
        requires
            self.wf(),
        ensures
            r == self.allocate_result(layout.bytes() as usize, layout.alignment() as usize) is Ok,
    {
        self.locate(layout).is_ok()
    }

    /// The node that `deallocate` frees for the block of `size` bytes at `addr`, found without
    /// changing anything.
    fn find_block(&self, addr: MemPtr, size: usize) -> (r: Result<usize, BuddyErr>)
        requires
            self.wf(),
        ensures
            r == self.deallocate_result(addr, size),
            r is Ok ==> 1 <= self.tree().lvl() <= MAX_LEVEL,
    {
        if is_align(addr, PAGE_SIZE) {
            if is_align(size, PAGE_SIZE) {
                proof {
                    let t = self.zone;
                    if size <= MAX_SIZE && size_depth(size) < t.lvl() {
                        let level = (t.lvl() - size_depth(size)) as nat;
                        crate::bintree::index::lemma_exp2_mono((level - 1) as nat, level);
                        lemma_first_match_range(
                            t.values(),
                            t.bits(),
                            depth_first((level - 1) as nat),
                            exp2(level) - 1,
                            addr,
                            true,
                        );
                    }
                }
                let found = self.zone.find_match(size, addr, true);
                let index = match found {
                    Ok(i) => i,
                    Err(e) => {
                        return Err(BuddyErr::from(e));
                    },
                };
                proof {
                    let t = self.zone;
                    let level = (t.lvl() - size_depth(size)) as nat;
                    let m = first_match(
                        t.values(),
                        t.bits(),
                        depth_first((level - 1) as nat),
                        exp2(level) - 1,
                        addr,
                        true,
                    );
                    assert(size <= MAX_SIZE && size_depth(size) < t.lvl());
                    crate::bintree::index::lemma_exp2_mono((level - 1) as nat, level);
                    lemma_first_match_range(
                        t.values(),
                        t.bits(),
                        depth_first((level - 1) as nat),
                        exp2(level) - 1,
                        addr,
                        true,
                    );
                    crate::bintree::index::lemma_exp2_mono(level, 11);
                    crate::bintree::index::lemma_exp2_values();
                    assert(index == m);
                }
                Ok(index)
            } else {
                Err(BuddyErr::WrongAddr)
            }
        } else {
            Err(BuddyErr::WrongSize)
        }
    }
    /// Frees the block of `size` bytes at `addr`. It fails with `WrongSize` when `addr` is not
    /// page-aligned and with `WrongAddr` when `size` is not a multiple of a page. Otherwise it
    /// looks, among the nodes of the level of `size`, for the first used node that starts at
    /// `addr`; it fails with `WrongSize` when that level does not exist (as before `init`) and
    /// with `NotFound` when no such node does. On success the node's subtree is marked unused,
    /// the block's pages are counted free again (see `returned_pages`) and the node's index is
    /// returned.
    pub fn deallocate(&mut self, addr: MemPtr, size: usize) -> (r: Result<usize, BuddyErr>)
        requires
            old(self).wf(),
        ensures
            final(self).wf(),
            r == old(self).deallocate_result(addr, size),
            r matches Ok(m) ==> old(self).deallocated(*final(self), m as int, size),
            r is Err ==> *final(self) == *old(self),
    {
        let found = self.find_block(addr, size);
        if let Ok(index) = found {
            proof {
                crate::bintree::index::lemma_exp2_values();
                crate::bintree::index::lemma_exp2_mono((self.zone.lvl() - 1) as nat, 10);
                crate::bintree::index::lemma_exp2_pos((self.zone.lvl() - 1) as nat);
                assert(size <= MAX_SIZE);
            }
            self.zone.unuse_mem(index);
            let pages = self.zone.get_index(self.zone.level()) + 1;
            let cap = pages - ZONE_PAGES;
            let back = if size == 0 {
                1
            } else {
                size / PAGE_SIZE
            };
            proof {
                vstd::arithmetic::power2::lemma2_to64();
                crate::align::lemma_align_pow2(size, 12);
            }
            if self.page_counts + back > cap {
                self.page_counts = cap;
            } else {
                self.page_counts = self.page_counts + back;
            }
        }
        found
    }

    /// Whether `deallocate` succeeds for the block of `size` bytes at `addr`; nothing changes.
    pub fn can_deallocate(&self, addr: MemPtr, size: usize) -> (r: bool)
        requires
            self.wf(),
        ensures
            r == self.deallocate_result(addr, size) is Ok,
    {
        self.find_block(addr, size).is_ok()
    }

}

/// A page of the zone that is used before `allocate` is still used after it, and the block
/// handed out holds none of those pages. Over a run of allocations, then, every block handed
/// out is disjoint from the tree's own pages and from every block handed out before it.
pub proof fn law_alloc_disjoint_from_used(
    b: BuddyAllocator,
    after: BuddyAllocator,
    size: usize,
    align: usize,
    x: int,
)
    requires
        b.wf(),
        b.allocate_result(size, align) is Ok,
        b.allocated(after, size, align),
        b.in_zone(x),
        b.page_used(x),
    ensures
        after.in_zone(x),
        after.page_used(x),
        forall|j: int|
            0 <= j < block_pages(size) ==> #[trigger] block_page(b.allocate_result(size, align), j)
                != x,
{
    law_alloc_takes_free_pages(b, after, size, align);
    lemma_alloc_node_in_level(b, size, align);
    let t = b.tree();
    let big_t = t.lvl();
    let pages = exp2((big_t - 1) as nat);
    crate::bintree::index::lemma_exp2_add((big_t - 1) as nat, 1);
    crate::bintree::index::lemma_exp2_values();
    crate::bintree::index::lemma_exp2_mono(big_t, 11);
    t.lemma_wf_lens();
    let k = b.page_leaf(x);
    let z = b.zone_start() as int;
    assert((x - z) / PAGE_SIZE as int + 1 <= pages) by (nonlinear_arith)
        requires x + 4096 <= z + pages * 4096, z <= x;
    assert(0 <= k < t.bits().len());
    assert(after.page_leaf(x) == k);
    assert(after.tree().bits()[k]);
    assert forall|j: int| 0 <= j < block_pages(size) implies #[trigger] block_page(
        b.allocate_result(size, align),
        j,
    ) != x by {
        assert(!b.page_used(page_addr(b.allocate_result(size, align)) + j * PAGE_SIZE));
    }
}

/// `init_new` and `init` over the same pages leave the same allocator: the same zone, free
/// count, levels, bitmap, and start address of every node of the tree.
pub proof fn law_init_new_as_init(a: BuddyAllocator, b: BuddyAllocator, bottom: usize, top: usize)
    requires
        a.wf(),
        b.wf(),
        a.is_set_up(bottom, top),
        b.is_set_up(bottom, top),
    ensures
        a.zone_start() == b.zone_start(),
        a.free_pages() == b.free_pages(),
        a.tree().lvl() == b.tree().lvl(),
        a.tree().bits() == b.tree().bits(),
        forall|k: int|
            0 <= k < 2 * a.zone_pages() - 1 ==> #[trigger] a.tree().values()[k]
                == b.tree().values()[k],
{
    a.tree().lemma_wf_lens();
    b.tree().lemma_wf_lens();
    assert(a.tree().bits() =~= b.tree().bits());
}

/// `first_aligned_fit` stays in `from..=end`.
proof fn lemma_aligned_fit_range(
    values: Seq<usize>,
    bits: Seq<bool>,
    from: int,
    end: int,
    max_node: int,
    n: int,
    align: usize,
)
    requires
        from <= end,
    ensures
        ({
            let r = first_aligned_fit(values, bits, from, end, max_node, n, align);
            &&& from <= r <= end
            &&& r < end ==> node_fits(bits, r, max_node, n) && spec_is_align(values[r], align)
        }),
    decreases end - from,
{
    if from < end {
        lemma_aligned_fit_range(values, bits, from + 1, end, max_node, n, align);
    }
}

/// The nodes before the first fitting node do not fit, so the aligned search may start at
/// the first fitting node.
proof fn lemma_skip_to_first_fit(
    values: Seq<usize>,
    bits: Seq<bool>,
    from: int,
    end: int,
    max_node: int,
    n: int,
    align: usize,
)
    requires
        from <= end,
    ensures
        first_aligned_fit(values, bits, from, end, max_node, n, align) == first_aligned_fit(
            values,
            bits,
            first_unused(bits, from, end, max_node, n),
            end,
            max_node,
            n,
            align,
        ),
    decreases end - from,
{
    if from < end && !node_fits(bits, from, max_node, n) {
        lemma_skip_to_first_fit(values, bits, from + 1, end, max_node, n, align);
    }
}

/// `first_aligned_fit` gives the same node on a second bitmap that agrees with the first on
/// which nodes fit, for every node before the node found, and on which that node still fits.
proof fn lemma_aligned_fit_same(
    values: Seq<usize>,
    bits: Seq<bool>,
    bits2: Seq<bool>,
    from: int,
    end: int,
    max_node: int,
    n: int,
    align: usize,
)
    requires
        from <= end,
        ({
            let r = first_aligned_fit(values, bits, from, end, max_node, n, align);
            &&& forall|k: int|
                from <= k < r ==> node_fits(bits, k, max_node, n) == #[trigger] node_fits(
                    bits2,
                    k,
                    max_node,
                    n,
                )
            &&& r < end ==> node_fits(bits2, r, max_node, n)
        }),
    ensures
        first_aligned_fit(values, bits2, from, end, max_node, n, align) == first_aligned_fit(
            values,
            bits,
            from,
            end,
            max_node,
            n,
            align,
        ),
    decreases end - from,
{
    let r = first_aligned_fit(values, bits, from, end, max_node, n, align);
    lemma_aligned_fit_range(values, bits, from, end, max_node, n, align);
    if from < r {
        let r1 = first_aligned_fit(values, bits, from + 1, end, max_node, n, align);
        assert(r1 == r);
        assert(node_fits(bits, from, max_node, n) == node_fits(bits2, from, max_node, n));
        assert forall|k: int| from + 1 <= k < r1 implies node_fits(bits, k, max_node, n)
            == #[trigger] node_fits(bits2, k, max_node, n) by {
            assert(from <= k < r);
        }
        lemma_aligned_fit_same(values, bits, bits2, from + 1, end, max_node, n, align);
    }
}

/// A request that `allocate` serves takes a block of whole pages, at least one and no more than
/// are counted free, on an existing level of a set-up tree; the node it settles on lies on that
/// level, fits the block's pages and starts at a multiple of the alignment.
proof fn lemma_alloc_node_in_level(b: BuddyAllocator, size: usize, align: usize)
    requires
        b.wf(),
        b.allocate_result(size, align) is Ok,
    ensures
        b.is_init(),
        block_bytes(size) % PAGE_SIZE as int == 0,
        block_bytes(size) == block_pages(size) * PAGE_SIZE,
        1 <= block_pages(size) <= b.free_pages(),
        block_bytes(size) <= MAX_SIZE,
        size_depth(block_bytes(size) as usize) == halvings(block_bytes(size) as nat),
        size_depth(block_bytes(size) as usize) < b.tree().lvl(),
        ({
            let lv = (b.tree().lvl() - size_depth(block_bytes(size) as usize)) as nat;
            let idx = alloc_node(b.tree(), size, align);
            &&& 1 <= lv <= b.tree().lvl()
            &&& alloc_end(b.tree(), size) == depth_first(lv)
            &&& depth_first((lv - 1) as nat) <= idx <= exp2(lv) - 2
            &&& idx <= b.tree().spec_max_node()
            &&& node_fits(b.tree().bits(), idx, b.tree().spec_max_node(), block_pages(size))
            &&& spec_is_align(b.tree().values()[idx], align)
        }),
{
    let t = b.tree();
    let lvl = t.lvl();
    crate::bintree::index::lemma_exp2_values();
    crate::bintree::index::lemma_exp2_is_pow2(12);
    crate::align::lemma_align_exp2(size, PAGE_SIZE);
    let m = block_bytes(size);
    assert(m % PAGE_SIZE as int == 0);
    assert(m >= PAGE_SIZE);
    let counts = block_pages(size);
    assert(m == counts * PAGE_SIZE);
    assert(m <= usize::MAX);
    crate::align::lemma_align_exp2(m as usize, PAGE_SIZE);
    assert(spec_align_down(m as usize, MIN_SIZE) == m);
    assert(m <= exp2((lvl - 1) as nat) * MIN_SIZE);
    lemma_halvings_exp2(m as nat, (lvl - 1) as nat);
    let lv = (lvl - size_depth(m as usize)) as nat;
    crate::bintree::index::lemma_exp2_mono((lv - 1) as nat, lv);
    crate::bintree::index::lemma_exp2_mono(lv, lvl);
    lemma_aligned_fit_range(
        t.values(),
        t.bits(),
        depth_first((lv - 1) as nat),
        depth_first(lv),
        t.spec_max_node(),
        counts,
        align,
    );
}

/// A block that `allocate` hands out starts at a page of the zone, and the zone starts on a
/// page boundary.
pub proof fn lemma_alloc_in_zone(b: BuddyAllocator, size: usize, align: usize)
    requires
        b.wf(),
        b.allocate_result(size, align) is Ok,
    ensures
        b.in_zone(page_addr(b.allocate_result(size, align)) as int),
        b.zone_start() % PAGE_SIZE as nat == 0,
{
    lemma_alloc_node_in_level(b, size, align);
    let t = b.tree();
    let idx = alloc_node(t, size, align);
    let big_t = t.lvl();
    crate::bintree::index::lemma_exp2_add((big_t - 1) as nat, 1);
    crate::bintree::index::lemma_exp2_values();
    assert(exp2(big_t) == 2 * exp2((big_t - 1) as nat));
    crate::bintree::tree::lemma_node_value_in_zone(b.zone_addr as int, (big_t - 1) as nat, idx);
}

/// Freeing a block that `allocate` has just handed out, with the block's size, finds the node
/// that was allocated; freeing it marks that node's subtree unused and counts the block's
/// pages free again, as they were before the allocation.
pub proof fn law_free_after_alloc(
    b: BuddyAllocator,
    after: BuddyAllocator,
    freed: BuddyAllocator,
    size: usize,
    align: usize,
)
    requires
        b.wf(),
        b.allocate_result(size, align) is Ok,
        b.allocated(after, size, align),
        after.deallocated(freed, alloc_node(b.tree(), size, align), block_bytes(size) as usize),
    ensures
        after.deallocate_result(
            page_addr(b.allocate_result(size, align)),
            block_bytes(size) as usize,
        ) == Ok::<
            usize,
            BuddyErr,
        >(alloc_node(b.tree(), size, align) as usize),
        freed.tree().bits() == marked_subtree(
            b.tree().bits(),
            alloc_node(b.tree(), size, align),
            b.tree().spec_max_node(),
            false,
        ),
        freed.free_pages() == b.free_pages(),
{
    let t = b.tree();
    let lvl = t.lvl();
    lemma_alloc_node_in_level(b, size, align);
    let m = block_bytes(size) as usize;
    let lv = (lvl - size_depth(m)) as nat;
    let idx = alloc_node(t, size, align);
    let a = t.values()[idx];
    let pages = exp2((lvl - 1) as nat);
    let root = b.zone_addr as int;
    let bits2 = after.tree().bits();
    crate::bintree::index::lemma_exp2_values();
    crate::bintree::index::lemma_exp2_is_pow2(12);
    crate::bintree::index::lemma_exp2_add((lvl - 1) as nat, 1);
    crate::bintree::index::lemma_exp2_mono(lv, lvl);
    assert(exp2(lvl) == 2 * pages);
    // the address of the block is page-aligned
    crate::bintree::tree::lemma_node_value_in_zone(root, (lvl - 1) as nat, idx);
    assert(a == node_value(root, (pages * PAGE_SIZE) as int, idx));
    crate::align::lemma_align_exp2(a, PAGE_SIZE);
    crate::align::lemma_align_exp2(m, PAGE_SIZE);
    assert(spec_is_align(a, PAGE_SIZE));
    // the allocated node is marked used
    lemma_in_own_subtree(idx);
    t.lemma_wf_lens();
    assert(bits2[idx]);
    // no node of the level before it starts at the same address
    let d = (lv - 1) as nat;
    assert((lv - 1) as nat + 1 == lv);
    lemma_node_value_level(root, (lvl - 1) as nat, d, idx);
    assert forall|k: int| depth_first(d) <= k < idx implies #[trigger] after.tree().values()[k] != a by {
        lemma_node_value_level(root, (lvl - 1) as nat, d, k);
        let bs = exp2(((lvl - 1) as nat - d) as nat) * MIN_SIZE;
        crate::bintree::index::lemma_exp2_pos(((lvl - 1) as nat - d) as nat);
        assert((k + 1 - exp2(d)) * bs < (idx + 1 - exp2(d)) * bs) by (nonlinear_arith)
            requires k < idx, bs > 0;
    }
    lemma_first_match_at(
        after.tree().values(),
        bits2,
        depth_first(d),
        exp2(lv) - 1,
        a,
        true,
        idx,
    );
    assert(after.dealloc_node(a, m) == idx);
    assert(bits2.len() == map_bits());
    assert(freed.tree().bits() =~= marked_subtree(t.bits(), idx, t.spec_max_node(), false));
    // the block's pages come back in full: they were taken from a count within the cap
    crate::align::lemma_align_exp2(m, PAGE_SIZE);
    assert(block_pages(m) == block_pages(size));
}

/// A block that `allocate` hands out starts at a multiple of the requested alignment, lies in
/// the zone, each of its pages was free before the call, and each is marked used after it.
pub proof fn law_alloc_takes_free_pages(
    b: BuddyAllocator,
    after: BuddyAllocator,
    size: usize,
    align: usize,
)
    requires
        b.wf(),
        b.allocate_result(size, align) is Ok,
        b.allocated(after, size, align),
    ensures
        spec_is_align(page_addr(b.allocate_result(size, align)), align),
        forall|j: int|
            0 <= j < block_pages(size) ==> #[trigger] b.in_zone(
                page_addr(b.allocate_result(size, align)) + j * PAGE_SIZE,
            ),
        forall|j: int|
            0 <= j < block_pages(size) ==> {
                &&& !#[trigger] b.page_used(page_addr(b.allocate_result(size, align)) + j * PAGE_SIZE)
                &&& after.page_used(page_addr(b.allocate_result(size, align)) + j * PAGE_SIZE)
            },
{
    let t = b.tree();
    let big_t = t.lvl();
    lemma_alloc_node_in_level(b, size, align);
    let m = block_bytes(size) as usize;
    let lv = (big_t - size_depth(m)) as nat;
    let dd = (lv - 1) as nat;
    let e = size_depth(m);
    let idx = alloc_node(t, size, align);
    let root = b.zone_addr as int;
    let pages = exp2((big_t - 1) as nat);
    let n = block_pages(size);
    let a = t.values()[idx];
    crate::bintree::index::lemma_exp2_values();
    crate::bintree::index::lemma_exp2_add((big_t - 1) as nat, 1);
    crate::bintree::index::lemma_exp2_add(dd, 1);
    assert(exp2(big_t) == 2 * pages);
    assert(dd + 1 == lv);
    assert((big_t - 1 - dd) as nat == e);
    // the node's block and its first leaf
    lemma_leftmost_leaf(idx, dd, big_t);
    let leaf0 = leftmost_leaf(idx, t.spec_max_node());
    let ee = exp2(e);
    assert(leaf0 == (idx + 1) * ee - 1);
    lemma_node_value_level(root, (big_t - 1) as nat, dd, idx);
    assert(a == node_value(root, (pages * PAGE_SIZE) as int, idx));
    let off = idx + 1 - exp2(dd);
    assert(a == root + off * (ee * PAGE_SIZE));
    crate::bintree::index::lemma_exp2_add(dd, e);
    assert(dd + e == (big_t - 1) as nat);
    assert(pages == exp2(dd) * ee);
    // the request fits in the node's leaves
    lemma_halvings_cover(m as nat);
    crate::bintree::index::lemma_exp2_mono(e, 10);
    crate::bintree::index::lemma_exp2_pos(e);
    crate::bintree::index::lemma_exp2_is_pow2(12);
    crate::align::lemma_align_exp2(m, PAGE_SIZE);
    assert(m == n * PAGE_SIZE);
    assert(n <= ee) by (nonlinear_arith)
        requires m == n * 4096, m + 1 <= ee * 4097, ee <= 1024, n >= 0;
    // the node's leaves lie in the tree
    assert((idx + 1) * ee < exp2(big_t)) by (nonlinear_arith)
        requires idx <= exp2(dd + 1) - 2, exp2(dd + 1) == 2 * exp2(dd), pages == exp2(dd) * ee,
            exp2(big_t) == 2 * pages, ee >= 1;
    crate::bintree::index::lemma_subtree_fits(idx as nat, e, big_t);
    t.lemma_wf_lens();
    let found = range_clear(t.bits(), leaf0, n);
    assert(found);
    assert(page_addr(b.allocate_result(size, align)) == a);
    assert forall|j: int| 0 <= j < block_pages(size) implies {
        &&& #[trigger] b.in_zone(page_addr(b.allocate_result(size, align)) + j * PAGE_SIZE)
        &&& !b.page_used(page_addr(b.allocate_result(size, align)) + j * PAGE_SIZE)
        &&& after.page_used(page_addr(b.allocate_result(size, align)) + j * PAGE_SIZE)
    } by {
        let addr = a + j * PAGE_SIZE;
        assert(addr - root == (off * ee + j) * PAGE_SIZE) by (nonlinear_arith)
            requires addr == a + j * 4096, a == root + off * (ee * 4096);
        assert(off >= 0);
        assert((addr - root) / PAGE_SIZE as int == off * ee + j) by (nonlinear_arith)
            requires addr - root == (off * ee + j) * 4096;
        assert(pages - 1 + off * ee + j == leaf0 + j) by (nonlinear_arith)
            requires pages == exp2(dd) * ee, off == idx + 1 - exp2(dd), leaf0 == (idx + 1) * ee - 1;
        assert(b.page_leaf(addr) == leaf0 + j);
        assert(!t.bits()[leaf0 + j]);
        crate::bintree::index::lemma_subtree_run(idx as nat, e);
        assert(in_subtree_at(idx, e, leaf0 + j));
        assert(leaf0 + j <= t.spec_max_node()) by (nonlinear_arith)
            requires leaf0 == (idx + 1) * ee - 1, j < n, n <= ee, (idx + 2) * ee <= exp2(big_t),
                t.spec_max_node() == exp2(big_t) - 2;
        assert(after.page_used(addr));
        // the page lies in the zone
        assert(off * ee + j + 1 <= pages) by (nonlinear_arith)
            requires leaf0 + j <= exp2(big_t) - 2, pages - 1 + off * ee + j == leaf0 + j,
                exp2(big_t) == 2 * pages, leaf0 == (idx + 1) * ee - 1, j < ee;
        assert(addr + PAGE_SIZE <= root + pages * PAGE_SIZE) by (nonlinear_arith)
            requires addr - root == (off * ee + j) * 4096, off * ee + j + 1 <= pages;
        assert(off * ee + j >= 0) by (nonlinear_arith)
            requires off >= 0, ee >= 1, j >= 0;
        vstd::arithmetic::div_mod::lemma_mod_multiples_basic(off * ee + j, PAGE_SIZE as int);
        assert((addr - root) % (PAGE_SIZE as int) == 0);
        assert(b.zone_start() + b.zone_pages() * PAGE_SIZE <= usize::MAX);
        assert(b.in_zone(addr));
    }
    assert forall|j: int| 0 <= j < block_pages(size) implies {
        &&& !#[trigger] b.page_used(page_addr(b.allocate_result(size, align)) + j * PAGE_SIZE)
        &&& after.page_used(page_addr(b.allocate_result(size, align)) + j * PAGE_SIZE)
    } by {
        assert(b.in_zone(page_addr(b.allocate_result(size, align)) + j * PAGE_SIZE));
    }
}

/// Two blocks handed out one after the other by `allocate` share no page.
pub proof fn law_alloc_disjoint(
    b: BuddyAllocator,
    b1: BuddyAllocator,
    b2: BuddyAllocator,
    size1: usize,
    align1: usize,
    size2: usize,
    align2: usize,
)
    requires
        b.wf(),
        b1.wf(),
        b.allocate_result(size1, align1) is Ok,
        b.allocated(b1, size1, align1),
        b1.allocate_result(size2, align2) is Ok,
        b1.allocated(b2, size2, align2),
    ensures
        forall|j1: int, j2: int|
            0 <= j1 < block_pages(size1) && 0 <= j2 < block_pages(size2) ==> #[trigger] block_page(
                b.allocate_result(size1, align1),
                j1,
            ) != #[trigger] block_page(b1.allocate_result(size2, align2), j2),
{
    law_alloc_takes_free_pages(b, b1, size1, align1);
    law_alloc_takes_free_pages(b1, b2, size2, align2);
    assert forall|j1: int, j2: int|
        0 <= j1 < block_pages(size1) && 0 <= j2 < block_pages(size2) implies #[trigger] block_page(
            b.allocate_result(size1, align1),
            j1,
        ) != #[trigger] block_page(b1.allocate_result(size2, align2), j2) by {
        let x1 = page_addr(b.allocate_result(size1, align1)) + j1 * PAGE_SIZE;
        let x2 = page_addr(b1.allocate_result(size2, align2)) + j2 * PAGE_SIZE;
        assert(!b.page_used(x1));
        assert(b1.page_used(x1));
        assert(!b1.page_used(x2));
    }
}

/// After a block is allocated and freed again with the block's size, with nothing in between,
/// `allocate` hands out the same block for the same request.
pub proof fn law_alloc_after_free(
    b: BuddyAllocator,
    after: BuddyAllocator,
    freed: BuddyAllocator,
    size: usize,
    align: usize,
)
    requires
        b.wf(),
        b.allocate_result(size, align) is Ok,
        b.allocated(after, size, align),
        after.deallocated(freed, alloc_node(b.tree(), size, align), block_bytes(size) as usize),
    ensures
        freed.allocate_result(size, align) == b.allocate_result(size, align),
        freed.free_pages() == b.free_pages(),
{
    let t = b.tree();
    let big_t = t.lvl();
    law_free_after_alloc(b, after, freed, size, align);
    lemma_alloc_node_in_level(b, size, align);
    let m = block_bytes(size) as usize;
    let lv = (big_t - size_depth(m)) as nat;
    let dd = (lv - 1) as nat;
    let e = size_depth(m);
    let idx = alloc_node(t, size, align);
    let n = block_pages(size);
    let max = t.spec_max_node();
    let bits = t.bits();
    let bits3 = freed.tree().bits();
    let lo = depth_first(dd);
    let hi = depth_first(lv);
    crate::bintree::index::lemma_exp2_values();
    crate::bintree::index::lemma_exp2_add(dd, 1);
    crate::bintree::index::lemma_exp2_add((big_t - 1) as nat, 1);
    assert(dd + 1 == lv);
    assert((big_t - 1 - dd) as nat == e);
    let ee = exp2(e);
    crate::bintree::index::lemma_exp2_add(dd, e);
    assert(dd + e == (big_t - 1) as nat);
    // the request fits in the leaves of a node
    lemma_halvings_cover(m as nat);
    crate::bintree::index::lemma_exp2_mono(e, 10);
    crate::bintree::index::lemma_exp2_pos(e);
    crate::bintree::index::lemma_exp2_is_pow2(12);
    crate::align::lemma_align_exp2(m, PAGE_SIZE);
    assert(m == n * PAGE_SIZE);
    assert(n <= ee) by (nonlinear_arith)
        requires m == n * 4096, m + 1 <= ee * 4097, ee <= 1024, n >= 0;
    t.lemma_wf_lens();
    crate::bintree::index::lemma_exp2_mono(big_t, 11);
    lemma_leftmost_leaf(idx, dd, big_t);
    let leaf0 = leftmost_leaf(idx, max);
    assert(leaf0 == (idx + 1) * ee - 1);
    assert((idx + 1) * ee < exp2(big_t)) by (nonlinear_arith)
        requires idx <= exp2(dd + 1) - 2, exp2(dd + 1) == 2 * exp2(dd),
            exp2((big_t - 1) as nat) == exp2(dd) * ee, exp2(big_t) == 2 * exp2((big_t - 1) as nat),
            ee >= 1;
    crate::bintree::index::lemma_subtree_fits(idx as nat, e, big_t);
    crate::bintree::index::lemma_subtree_run(idx as nat, e);
    // the node's own leaves are free again
    assert forall|x: int| leaf0 <= x < leaf0 + n implies !#[trigger] bits3[x] by {
        assert(in_subtree_at(idx, e, x));
        assert(x <= max) by (nonlinear_arith)
            requires leaf0 == (idx + 1) * ee - 1, x < leaf0 + n, n <= ee,
                (idx + 2) * ee <= exp2(big_t), max == exp2(big_t) - 2;
    }
    assert(range_clear(bits, leaf0, n));
    assert(range_clear(bits3, leaf0, n));
    lemma_in_own_subtree(idx);
    assert(!bits3[idx]);
    // the nodes before it fit exactly as they did
    assert forall|k: int| lo <= k < idx implies node_fits(bits, k, max, n) == #[trigger] node_fits(
        bits3,
        k,
        max,
        n,
    ) by {
        lemma_free_keeps_before(bits, idx, dd, big_t, k, n);
    }
    let values = t.values();
    lemma_aligned_fit_same(values, bits, bits3, lo, hi, max, n, align);
    assert(alloc_node(freed.tree(), size, align) == idx);
    assert(alloc_end(freed.tree(), size) == alloc_end(t, size));
}

/// Freeing the subtree of node `idx` of depth `dd` leaves each node `k` before it on that
/// depth, and the `n` leaves from `k`'s leftmost leaf on, as they were, for `n` no more than
/// the leaves below a node of that depth.
proof fn lemma_free_keeps_before(bits: Seq<bool>, idx: int, dd: nat, big_t: nat, k: int, n: int)
    requires
        bits.len() == map_bits(),
        dd < big_t,
        exp2(big_t) <= map_bits(),
        exp2(dd) - 1 <= k < idx,
        idx <= exp2(dd + 1) - 2,
        0 <= n <= exp2((big_t - 1 - dd) as nat),
    ensures
        ({
            let bits3 = marked_subtree(bits, idx, exp2(big_t) - 2, false);
            let lk = leftmost_leaf(k, exp2(big_t) - 2);
            &&& bits3[k] == bits[k]
            &&& range_clear(bits, lk, n) == range_clear(bits3, lk, n)
        }),
{
    let max = exp2(big_t) - 2;
    let bits3 = marked_subtree(bits, idx, max, false);
    let ee = exp2((big_t - 1 - dd) as nat);
    crate::bintree::index::lemma_exp2_add(dd, 1);
    crate::bintree::index::lemma_exp2_add((big_t - 1) as nat, 1);
    crate::bintree::index::lemma_exp2_add(dd, (big_t - 1 - dd) as nat);
    assert(dd + (big_t - 1 - dd) as nat == (big_t - 1) as nat);
    assert((big_t - 1) as nat + 1 == big_t);
    crate::bintree::index::lemma_exp2_pos(dd);
    crate::bintree::index::lemma_exp2_pos((big_t - 1 - dd) as nat);
    crate::bintree::index::lemma_exp2_mono(dd + 1, big_t);
    assert(k < bits.len());
    lemma_not_in_subtree(idx, dd, k, dd);
    lemma_leftmost_leaf(k, dd, big_t);
    let lk = leftmost_leaf(k, max);
    assert(lk == (k + 1) * ee - 1);
    assert((idx + 1) * ee <= exp2(big_t) - ee) by (nonlinear_arith)
        requires idx + 2 <= exp2(dd + 1), exp2(dd + 1) == 2 * exp2(dd),
            exp2(big_t) == 2 * (exp2(dd) * ee), ee >= 1;
    assert forall|x: int| lk <= x < lk + n implies #[trigger] bits3[x] == bits[x] by {
        assert(x < (idx + 1) * ee - 1) by (nonlinear_arith)
            requires lk == (k + 1) * ee - 1, x < lk + n, n <= ee, k + 1 <= idx;
        assert(exp2((big_t - 1) as nat) - 1 <= x) by (nonlinear_arith)
            requires lk == (k + 1) * ee - 1, x >= lk, k + 1 >= exp2(dd),
                exp2((big_t - 1) as nat) == exp2(dd) * ee;
        assert(x < bits.len());
        lemma_not_in_subtree(idx, dd, x, (big_t - 1) as nat);
    }
    if range_clear(bits, lk, n) {
        assert forall|x: int| lk <= x < lk + n implies !#[trigger] bits3[x] by {
            assert(bits3[x] == bits[x]);
        }
    }
    if range_clear(bits3, lk, n) {
        assert forall|x: int| lk <= x < lk + n implies !#[trigger] bits[x] by {
            assert(bits3[x] == bits[x]);
        }
    }
}

/// Page `j` of the block in a successful result of `allocate`.
pub open spec fn block_page(r: Result<MemPtr, BuddyErr>, j: int) -> int {
    page_addr(r) + j * PAGE_SIZE
}

/// The address in a successful result of `allocate`.
pub open spec fn page_addr(r: Result<MemPtr, BuddyErr>) -> usize {
    match r {
        Ok(p) => p,
        Err(_) => 0,
    }
}

} // verus!
