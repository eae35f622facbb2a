//! A complete binary tree over a run of pages: node `k` covers a block of memory,
//! its children `2k + 1` and `2k + 2` cover the two halves of that block, and the
//! leaves are single pages. A bitmap records which nodes are in use.
use vstd::prelude::*;

use super::def::{MAX_LEAF, MAX_LEVEL, MAX_PAGES, MAX_SIZE, MIN_SIZE};
use super::index::{
    depth_first, exp2, floor_pow2, in_subtree, in_subtree_at, is_pow2, is_power_of_two,
    leftmost_leaf, log2, lemma_is_pow2_exp2, lemma_log2_exp2, lemma_subtree_deeper, lemma_subtree_fits,
    lemma_subtree_run,
    lemma_exp2_add, lemma_exp2_gt, lemma_exp2_mono, lemma_exp2_strict, lemma_log2_bounds, lemma_exp2_pos, lemma_exp2_values, pow2_usize,
};
use super::treemap::{map_bits, TreeMap};
use crate::align::{align_down, spec_align_down};

verus! {

/// Number of times `x` is halved before it is at most one page.
pub open spec fn halvings(x: nat) -> nat
    decreases x,
{
    if x > MIN_SIZE {
        1 + halvings(x / 2)
    } else {
        0
    }
}

/// How many levels above the leaves the blocks of `size` bytes lie.
pub open spec fn size_depth(size: usize) -> nat {
    halvings(spec_align_down(size, MIN_SIZE) as nat)
}

/// Number of pages of a tree built over `size` bytes: the largest power of two
/// not above the number of whole pages in `size`.
pub open spec fn tree_pages(size: usize) -> nat {
    floor_pow2(size as nat / MIN_SIZE as nat)
}

/// Start address of node `k` in a tree over `mem` bytes from `root`: node `k` lies at
/// depth `d = log2(k + 1)` and is block number `k + 1 - 2^d` of size `mem / 2^d`.
pub open spec fn node_value(root: int, mem: int, k: int) -> int {
    let d = log2((k + 1) as nat);
    root + (k + 1 - exp2(d)) * (mem / (exp2(d) as int))
}

/// Whether the `count` bits from `start` on all lie in the map and are all clear.
pub open spec fn range_clear(bits: Seq<bool>, start: int, count: int) -> bool {
    &&& 0 <= start
    &&& start + count <= map_bits()
    &&& forall|k: int| start <= k < start + count ==> !#[trigger] bits[k]
}

/// The first node in `from..hi` whose bit is clear and whose `count` leaves from its
/// leftmost leaf on are clear, or `hi` when there is none.
pub open spec fn first_unused(bits: Seq<bool>, from: int, hi: int, max_node: int, count: int) -> int
    decreases hi - from,
{
    if from >= hi {
        hi
    } else if !bits[from] && range_clear(bits, leftmost_leaf(from, max_node), count) {
        from
    } else {
        first_unused(bits, from + 1, hi, max_node, count)
    }
}

/// The first node in `from..hi` whose bit is set, or `hi` when there is none.
pub open spec fn first_used(bits: Seq<bool>, from: int, hi: int) -> int
    decreases hi - from,
{
    if from >= hi {
        hi
    } else if bits[from] {
        from
    } else {
        first_used(bits, from + 1, hi)
    }
}

/// The first node in `from..end` whose value is `addr` and whose bit is `used`, or `end`
/// when there is none.
pub open spec fn first_match(
    values: Seq<usize>,
    bits: Seq<bool>,
    from: int,
    end: int,
    addr: usize,
    used: bool,
) -> int
    decreases end - from,
{
    if from >= end {
        end
    } else if values[from] == addr && bits[from] == used {
        from
    } else {
        first_match(values, bits, from + 1, end, addr, used)
    }
}

/// Whether node `k` lies fewer than `d` levels below node `root`.
pub open spec fn in_subtree_upto(root: int, d: nat, k: int) -> bool {
    exists|e: nat| e < d && #[trigger] in_subtree_at(root, e, k)
}

/// The bits after every node of the subtree of `idx` in a tree whose last node is
/// `max_node` is marked `used`.
pub open spec fn marked_subtree(bits: Seq<bool>, idx: int, max_node: int, used: bool) -> Seq<bool> {
    Seq::new(
        bits.len(),
        |k: int|
            if k <= max_node && in_subtree(idx, k) {
                used
            } else {
                bits[k]
            },
    )
}

/// Errors of the searches in the tree.
#[derive(Debug, Clone, Copy, PartialEq, Eq, Structural)]
pub enum TreeErr {
    /// The size is larger than any block.
    WrongSize,
    /// No node matches.
    NotFound,
    /// Not enough free memory.
    NotEnough,
}

/// Complete binary tree.
#[derive(Debug)]
pub struct BinTree {
    pub level: usize,
    nodes: Vec<usize>,
    pub bitmap: TreeMap,
}

impl BinTree {
    /// The start address recorded for each node.
    pub closed spec fn values(&self) -> Seq<usize> {
        self.nodes@
    }

    /// The tree holds a value for each of `MAX_PAGES` nodes and a full bitmap.
    pub closed spec fn wf(&self) -> bool {
        &&& self.nodes@.len() == MAX_PAGES
        &&& self.bitmap.wf()
        &&& self.bitmap@.len() == map_bits()
    }

    /// The bitmap: `true` marks a used node.
    pub closed spec fn bits(&self) -> Seq<bool> {
        self.bitmap@
    }

    /// The number of levels of the tree.
    pub closed spec fn lvl(&self) -> nat {
        self.level as nat
    }

    /// A well-formed tree has a value for each of `MAX_PAGES` nodes and a bit for each of
    /// `map_bits()` nodes.
    pub proof fn lemma_wf_lens(&self)
        requires
            self.wf(),
        ensures
            self.values().len() == MAX_PAGES,
            self.bits().len() == map_bits(),
    {
    }

    /// Index of the last node of a tree of `lvl()` levels.
    pub open spec fn spec_max_node(&self) -> int {
        exp2(self.lvl()) - 2
    }

    /// An empty tree: no level, every value `0`, every bit clear.
    pub fn new() -> (r: Self)
        ensures
            r.wf(),
            r.lvl() == 0,
            r.values() == Seq::new(MAX_PAGES as nat, |i: int| 0usize),
            r.bits() == Seq::new(map_bits(), |i: int| false),
    {
        let mut nodes: Vec<usize> = Vec::new();
        while nodes.len() < MAX_PAGES
            invariant
                nodes.len() <= MAX_PAGES,
                forall|k: int| 0 <= k < nodes.len() ==> nodes@[k] == 0usize,
            decreases MAX_PAGES - nodes.len(),
        {
            nodes.push(0usize);
        }
        let r = Self { nodes, bitmap: TreeMap::new(), level: 0 };
        assert(r.values() =~= Seq::new(MAX_PAGES as nat, |i: int| 0usize));
        r
    }

    /// The number of levels of the tree.
    pub fn level(&self) -> (r: usize)
        ensures
            r == self.lvl(),
    {
        self.level
    }

    /// The level of the blocks that hold `size` bytes: `self.level` counts the leaves
    /// as level `self.level` and the root as level `1`.
    pub fn get_level(&self, size: usize) -> (r: usize)
        requires
            self.lvl() >= size_depth(size),
        ensures
            r == self.lvl() - size_depth(size),
    {
        let mut index_size = align_down(size, MIN_SIZE);
        let mut level = self.level;
        while index_size > MIN_SIZE
            invariant
                level >= halvings(index_size as nat),
                level - halvings(index_size as nat) == self.level - size_depth(size),
            decreases index_size,
        {
            assert(index_size >> 1usize == index_size / 2) by (bit_vector);
            index_size = index_size >> 1;
            level = level - 1;
        }
        level
    }

    /// Index of the first node of `level` (the root is at level `1`).
    pub fn get_index(&self, level: usize) -> (r: usize)
        requires
            1 <= level,
            exp2((level - 1) as nat) <= usize::MAX,
        ensures
            r == exp2((level - 1) as nat) - 1,
    {
        proof {
            lemma_exp2_pos((level - 1) as nat);
        }
        pow2_usize(level - 1) - 1
    }

    /// The value recorded for node `idx`.
    pub fn get_value(&self, idx: usize) -> (r: usize)
        requires
            self.wf(),
            idx < MAX_PAGES,
        ensures
            r == self.values()[idx as int],
    {
        self.nodes[idx]
    }

    /// Index of the last node of the tree.
    pub fn max_node(&self) -> (r: usize)
        requires
            1 <= self.lvl(),
            exp2(self.lvl()) <= usize::MAX,
        ensures
            r == self.spec_max_node(),
    {
        proof {
            lemma_exp2_gt(self.level as nat);
            lemma_exp2_mono(1, self.level as nat);
            assert(exp2(1) == 2) by {
                lemma_exp2_values();
            }
            assert(((self.level + 1) - 1) as nat == self.level as nat);
        }
        self.get_index(self.level + 1) - 1
    }

    /// Marks node `idx` used.
    pub fn use_page(&mut self, idx: usize)
        requires
            old(self).wf(),
            idx < map_bits(),
        ensures
            final(self).wf(),
            final(self).lvl() == old(self).lvl(),
            final(self).values() == old(self).values(),
            final(self).bits() == old(self).bits().update(idx as int, true),
    {
        self.bitmap.set_bit(idx);
    }

    /// Marks node `idx` unused.
    pub fn unuse_page(&mut self, idx: usize)
        requires
            old(self).wf(),
            idx < map_bits(),
        ensures
            final(self).wf(),
            final(self).lvl() == old(self).lvl(),
            final(self).values() == old(self).values(),
            final(self).bits() == old(self).bits().update(idx as int, false),
    {
        self.bitmap.unset_bit(idx);
    }

    /// Index of the left child of node `idx`.
    pub fn find_left_child(&self, idx: usize) -> (r: usize)
        requires
            idx * 2 + 1 <= usize::MAX,
        ensures
            r == idx * 2 + 1,
    {
        idx * 2 + 1
    }

    /// Index of the right child of node `idx`.
    pub fn find_right_child(&self, idx: usize) -> (r: usize)
        requires
            idx * 2 + 2 <= usize::MAX,
        ensures
            r == idx * 2 + 2,
    {
        idx * 2 + 2
    }

    /// Index of the parent of node `idx`.
    pub fn find_parent(&self, idx: usize) -> (r: usize)
        requires
            1 <= idx < usize::MAX,
        ensures
            r == (idx + 1) / 2 - 1,
    {
        (idx + 1) / 2 - 1
    }

    /// Builds a tree over `size` bytes from `root`: it keeps the largest power of two of whole
    /// pages, records the start address of every block and clears their bits. Every other bit
    /// is set. Fails when `size` holds no whole page. `level` grows by the number of levels built.
    pub fn init(&mut self, root: usize, size: usize) -> (r: Result<usize, &'static str>)
        requires
            old(self).wf(),
            tree_pages(size) <= MAX_LEAF,
            root + tree_pages(size) * MIN_SIZE <= usize::MAX,
            old(self).lvl() + log2(tree_pages(size)) + 1 <= usize::MAX,
        ensures
            final(self).wf(),
            tree_pages(size) == 0 ==> {
                &&& r == Err::<usize, &'static str>("BinTree::init")
                &&& final(self).lvl() == old(self).lvl()
                &&& final(self).values() == old(self).values()
                &&& final(self).bits() == Seq::new(map_bits(), |i: int| true)
            },
            tree_pages(size) > 0 ==> {
                let pc = tree_pages(size);
                let node_counts = 2 * pc - 1;
                &&& r == Ok::<usize, &'static str>(pc as usize)
                &&& final(self).lvl() == old(self).lvl() + log2(pc) + 1
                &&& forall|k: int|
                    0 <= k < node_counts ==> #[trigger] final(self).values()[k] == node_value(
                        root as int,
                        (pc * MIN_SIZE) as int,
                        k,
                    )
                &&& forall|k: int|
                    node_counts <= k < MAX_PAGES ==> #[trigger] final(self).values()[k]
                        == old(self).values()[k]
                &&& forall|k: int|
                    0 <= k < map_bits() ==> #[trigger] final(self).bits()[k] == (k
                        >= node_counts)
            },
    {
        proof {
            vstd::arithmetic::power2::lemma2_to64();
            crate::align::lemma_align_pow2(size, 12);
        }
        let mut mem_size = align_down(size, MIN_SIZE);
        let mut page_counts = mem_size / MIN_SIZE;
        assert(page_counts == size / MIN_SIZE);
        while page_counts > 0 && !is_power_of_two(page_counts)
            invariant
                MIN_SIZE == 4096,
                mem_size == page_counts * 4096,
                floor_pow2(page_counts as nat) == tree_pages(size),
            decreases page_counts,
        {
            page_counts = page_counts - 1;
            mem_size = mem_size - MIN_SIZE;
        }
        assert(page_counts == tree_pages(size));
        self.bitmap.set_bit_all();

        if page_counts == 0 {
            return Err("BinTree::init");
        }
        let ghost pc = page_counts as nat;
        let ghost big_l = log2(pc);
        let ghost root_i = root as int;
        let ghost mem = mem_size as int;
        let ghost old_nodes = self.nodes@;
        proof {
            lemma_floor_pow2_facts(size);
            lemma_is_pow2_exp2(pc);
            lemma_exp2_add(big_l, 1);
            lemma_exp2_values();
        }
        let node_counts = page_counts * 2 - 1;
        let mut cur_size = mem_size;
        let mut counts: usize = 0;
        let ghost mut j: nat = 0;
        proof {
            assert(exp2((big_l - 0) as nat) == pc);
        }
        while counts < node_counts
            invariant
                self.wf(),
                pc == page_counts,
                pc == exp2(big_l),
                1 <= pc <= MAX_LEAF,
                mem == pc * MIN_SIZE,
                mem_size == mem,
                root_i == root,
                root + mem <= usize::MAX,
                node_counts == 2 * pc - 1,
                exp2(big_l + 1) == 2 * pc,
                j <= big_l + 1,
                counts == exp2(j) - 1,
                j <= big_l ==> cur_size == exp2((big_l - j) as nat) * MIN_SIZE,
                self.level == old(self).level + j,
                old(self).lvl() + big_l + 1 <= usize::MAX,
                forall|k: int|
                    0 <= k < counts ==> #[trigger] self.nodes@[k] == node_value(root_i, mem, k),
                forall|k: int| counts <= k < MAX_PAGES ==> #[trigger] self.nodes@[k] == old_nodes[k],
                forall|k: int| 0 <= k < map_bits() ==> #[trigger] self.bitmap@[k] == (k >= counts),
            decreases node_counts - counts,
        {
            proof {
                lemma_exp2_pos(j);
                if j > big_l {
                    lemma_exp2_mono(big_l + 1, j);
                }
                assert(j <= big_l);
                lemma_exp2_add((big_l - j) as nat, j);
                assert((big_l - j) as nat + j == big_l);
                assert(cur_size * exp2(j) == mem) by (nonlinear_arith)
                    requires
                        cur_size == exp2((big_l - j) as nat) * MIN_SIZE,
                        exp2(big_l) == exp2((big_l - j) as nat) * exp2(j),
                        mem == exp2(big_l) * MIN_SIZE;
                lemma_exp2_pos((big_l - j) as nat);
            }
            let mut current = root;
            let ghost mut i: nat = 0;
            while current < root + mem_size
                invariant
                    self.wf(),
                    j <= big_l,
                    pc == exp2(big_l),
                    1 <= pc <= MAX_LEAF,
                    node_counts == 2 * pc - 1,
                    exp2(big_l + 1) == 2 * pc,
                    mem == pc * MIN_SIZE,
                    mem_size == mem,
                    root_i == root,
                    root + mem <= usize::MAX,
                    cur_size == exp2((big_l - j) as nat) * MIN_SIZE,
                    cur_size * exp2(j) == mem,
                    cur_size >= MIN_SIZE,
                    i <= exp2(j),
                    self.level == old(self).level + j,
                    old(self).lvl() + big_l + 1 <= usize::MAX,
                    current == root + i * cur_size,
                    counts == exp2(j) - 1 + i,
                    forall|k: int|
                        0 <= k < counts ==> #[trigger] self.nodes@[k] == node_value(root_i, mem, k),
                    forall|k: int|
                        counts <= k < MAX_PAGES ==> #[trigger] self.nodes@[k] == old_nodes[k],
                    forall|k: int| 0 <= k < map_bits() ==> #[trigger] self.bitmap@[k] == (k >= counts),
                decreases exp2(j) - i,
            {
                proof {
                    lemma_exp2_values();
                    if i >= exp2(j) {
                        assert(i * cur_size >= cur_size * exp2(j)) by (nonlinear_arith)
                            requires i >= exp2(j), cur_size >= 0;
                        assert(false);
                    }
                    assert(i * cur_size + cur_size <= mem) by (nonlinear_arith)
                        requires i + 1 <= exp2(j), cur_size * exp2(j) == mem, cur_size >= 0;
                    lemma_exp2_mono(j, big_l);
                    lemma_exp2_add(j, 1);
                    lemma_log2_exp2(j, (counts + 1) as nat);
                    assert(log2((counts as int + 1) as nat) == j);
                    assert(counts as int + 1 - exp2(j) == i);
                    assert(mem / (exp2(j) as int) == cur_size) by (nonlinear_arith)
                        requires cur_size * exp2(j) == mem, exp2(j) >= 1;
                    assert(node_value(root_i, mem, counts as int) == current);
                }
                self.nodes.set(counts, current);
                self.bitmap.unset_bit(counts);
                current = current + cur_size;
                counts = counts + 1;
                proof {
                    i = i + 1;
                    assert(current == root + i * cur_size) by (nonlinear_arith)
                        requires current == root + (i - 1) * cur_size + cur_size;
                }
            }
            proof {
                if i < exp2(j) {
                    assert(i * cur_size < cur_size * exp2(j)) by (nonlinear_arith)
                        requires i < exp2(j), cur_size > 0;
                }
                assert(i == exp2(j));
                lemma_exp2_add(j, 1);
                lemma_exp2_mono(j + 1, big_l + 1);
                if j < big_l {
                    let e = exp2((big_l - j - 1) as nat);
                    assert(exp2((big_l - j) as nat) == 2 * e);
                }
            }
            assert(cur_size >> 1usize == cur_size / 2) by (bit_vector);
            cur_size = cur_size >> 1;
            self.level = self.level + 1;
            proof {
                j = j + 1;
            }
        }
        proof {
            if j < big_l + 1 {
                lemma_exp2_mono(j, big_l);
                assert(false);
            }
        }
        Ok(page_counts)
    }

    /// The first node at the level of `size` that is unused and whose first `size / MIN_SIZE`
    /// pages are free. Fails when `size` exceeds `MAX_SIZE` or when no node of that level fits.
    pub fn find_unused(&self, size: usize) -> (r: Result<usize, &'static str>)
        requires
            self.wf(),
            self.lvl() <= MAX_LEVEL,
            size <= MAX_SIZE ==> self.lvl() > size_depth(size),
        ensures
            size > MAX_SIZE ==> r == Err::<usize, &'static str>("BinTree::find"),
            size <= MAX_SIZE ==> {
                let level = (self.lvl() - size_depth(size)) as nat;
                let end = depth_first(level);
                let m = first_unused(
                    self.bits(),
                    depth_first((level - 1) as nat),
                    end,
                    self.spec_max_node(),
                    (size / MIN_SIZE) as int,
                );
                &&& m < end ==> r == Ok::<usize, &'static str>(m as usize)
                &&& m == end ==> r == Err::<usize, &'static str>("BinTree::find")
            },
            size <= MAX_SIZE ==> {
                let level = (self.lvl() - size_depth(size)) as nat;
                let lo = depth_first((level - 1) as nat);
                let end = depth_first(level);
                let count = (size / MIN_SIZE) as int;
                let max = self.spec_max_node();
                &&& r matches Ok(i) ==> {
                    let lm = leftmost_leaf(i as int, max);
                    &&& lo <= i < end
                    &&& !self.bits()[i as int]
                    &&& 0 <= lm && lm + count <= map_bits()
                    &&& forall|j: int| lm <= j < lm + count ==> !#[trigger] self.bits()[j]
                }
                &&& forall|k: int|
                    lo <= k < (match r {
                        Ok(i) => i as int,
                        Err(_) => end,
                    }) ==> {
                        let lk = leftmost_leaf(k, max);
                        ||| #[trigger] self.bits()[k]
                        ||| lk < 0
                        ||| lk + count > map_bits()
                        ||| exists|j: int| lk <= j < lk + count && self.bits()[j]
                    }
            },
    {
        if size > MAX_SIZE {
            return Err("BinTree::find");
        }
        proof {
            lemma_exp2_values();
            lemma_exp2_mono(self.level as nat, 11);
        }
        let level = self.get_level(size);
        proof {
            lemma_exp2_mono(level as nat, 11);
            lemma_exp2_mono((level - 1) as nat, level as nat);
            lemma_exp2_mono(1, level as nat);
            assert(((level + 1) - 1) as nat == level as nat);
        }
        let mut idx = self.get_index(level);
        let hi = self.get_index(level + 1);
        let max_node = self.max_node();
        let ghost count = (size / MIN_SIZE) as int;
        let ghost lo = idx as int;
        while idx < hi
            invariant
                self.wf(),
                lo <= idx <= hi,
                hi <= 2047,
                max_node == self.spec_max_node(),
                max_node <= 2046,
                count == (size / MIN_SIZE) as int,
                first_unused(self.bits(), lo, hi as int, max_node as int, count) == first_unused(
                    self.bits(),
                    idx as int,
                    hi as int,
                    max_node as int,
                    count,
                ),
            ensures
                first_unused(self.bits(), lo, hi as int, max_node as int, count) == idx as int,
            decreases hi - idx,
        {
            if !self.bitmap.get_bit(idx) {
                let mut left_leaf = idx;
                while self.find_left_child(left_leaf) <= max_node
                    invariant
                        left_leaf <= 2046,
                        max_node <= 2046,
                        leftmost_leaf(left_leaf as int, max_node as int) == leftmost_leaf(
                            idx as int,
                            max_node as int,
                        ),
                    decreases max_node - left_leaf,
                {
                    left_leaf = self.find_left_child(left_leaf);
                }
                let page_counts = size / MIN_SIZE;
                if self.bitmap.mul_get_bit(left_leaf, page_counts) {
                    proof {
                        assert(leftmost_leaf(left_leaf as int, max_node as int) == left_leaf);
                        assert(range_clear(
                            self.bits(),
                            leftmost_leaf(idx as int, max_node as int),
                            count,
                        ));
                    }
                    break ;
                } else {
                    idx = idx + 1;
                }
            } else {
                idx = idx + 1;
            }
        }
        proof {
            law_first_unused_is_first_fit(self.bits(), lo, hi as int, max_node as int, count);
        }
        if idx == hi {
            return Err("BinTree::find");
        }
        Ok(idx)
    }

    /// The first used node among the nodes of the level of `size` but its last one, or the
    /// level's last node when none of them is used. Fails when `size` exceeds `MAX_SIZE`.
    pub fn find_used(&self, size: usize) -> (r: Result<usize, &'static str>)
        requires
            self.wf(),
            self.lvl() <= MAX_LEVEL,
            size <= MAX_SIZE ==> self.lvl() > size_depth(size),
        ensures
            size > MAX_SIZE ==> r == Err::<usize, &'static str>("BinTree::find"),
            size <= MAX_SIZE ==> {
                let level = (self.lvl() - size_depth(size)) as nat;
                r == Ok::<usize, &'static str>(
                    first_used(self.bits(), depth_first((level - 1) as nat), depth_first(level) - 1)
                        as usize,
                )
            },
            size <= MAX_SIZE ==> {
                let level = (self.lvl() - size_depth(size)) as nat;
                let lo = depth_first((level - 1) as nat);
                let last = depth_first(level) - 1;
                r matches Ok(i) && {
                    &&& lo <= i <= last
                    &&& forall|k: int| lo <= k < i ==> !#[trigger] self.bits()[k]
                    &&& i < last ==> self.bits()[i as int]
                }
            },
    {
        if size > MAX_SIZE {
            return Err("BinTree::find");
        }
        proof {
            lemma_exp2_values();
            lemma_exp2_mono(self.level as nat, 11);
        }
        let level = self.get_level(size);
        proof {
            lemma_exp2_mono(level as nat, 11);
            lemma_exp2_mono((level - 1) as nat, level as nat);
            lemma_exp2_mono(1, level as nat);
            assert(((level + 1) - 1) as nat == level as nat);
        }
        let mut idx = self.get_index(level);
        let max_idx = self.get_index(level + 1) - 1;
        let ghost lo = idx as int;
        while idx < max_idx
            invariant
                self.wf(),
                lo <= idx <= max_idx,
                max_idx <= 2046,
                first_used(self.bits(), lo, max_idx as int) == first_used(
                    self.bits(),
                    idx as int,
                    max_idx as int,
                ),
            ensures
                first_used(self.bits(), lo, max_idx as int) == idx as int,
            decreases max_idx - idx,
        {
            if self.bitmap.get_bit(idx) {
                break ;
            }
            idx = idx + 1;
        }
        proof {
            law_first_used_is_first(self.bits(), lo, max_idx as int);
        }
        Ok(idx)
    }


    /// Marks every node of the subtree of `idx` that lies in the tree `used`.
    fn mark_subtree(&mut self, idx: usize, used: bool)
        requires
            old(self).wf(),
            1 <= old(self).lvl() <= MAX_LEVEL,
        ensures
            final(self).wf(),
            final(self).lvl() == old(self).lvl(),
            final(self).values() == old(self).values(),
            final(self).bits() == marked_subtree(
                old(self).bits(),
                idx as int,
                old(self).spec_max_node(),
                used,
            ),
    {
        proof {
            lemma_exp2_values();
            lemma_exp2_mono(self.level as nat, 11);
        }
        let max_node = self.max_node();
        let mut left_leaf = idx;
        let mut level: usize = 0;
        let ghost old_bits = self.bits();
        let ghost lvl = self.lvl();
        while left_leaf <= max_node
            invariant
                self.wf(),
                self.lvl() == lvl,
                1 <= lvl <= MAX_LEVEL,
                self.values() == old(self).values(),
                old_bits == old(self).bits(),
                max_node == exp2(lvl) - 2,
                max_node <= 2046,
                exp2(lvl) <= 2048,
                left_leaf as int == (idx + 1) * exp2(level as nat) - 1,
                level > 0 ==> left_leaf <= 4093,
                forall|k: int|
                    0 <= k < map_bits() ==> #[trigger] self.bits()[k] == if k <= max_node
                        && in_subtree_upto(idx as int, level as nat, k) {
                        used
                    } else {
                        old_bits[k]
                    },
            decreases 4096 - left_leaf,
        {
            proof {
                lemma_subtree_fits(idx as nat, level as nat, lvl);
                lemma_subtree_run(idx as nat, level as nat);
                lemma_exp2_mono(level as nat, lvl);
            }
            let count = pow2_usize(level);
            let mut i: usize = 0;
            while i < count
                invariant
                    self.wf(),
                    self.lvl() == lvl,
                    self.values() == old(self).values(),
                    max_node == exp2(lvl) - 2,
                    max_node <= 2046,
                    count == exp2(level as nat),
                    left_leaf + count - 1 <= max_node,
                    i <= count,
                    forall|k: int|
                        0 <= k < map_bits() ==> #[trigger] self.bits()[k] == if k <= max_node && (
                        in_subtree_upto(idx as int, level as nat, k) || (left_leaf <= k
                            < left_leaf + i)) {
                            used
                        } else {
                            old_bits[k]
                        },
                decreases count - i,
            {
                let ghost prev = self.bits();
                if used {
                    self.bitmap.set_bit(left_leaf + i);
                } else {
                    self.bitmap.unset_bit(left_leaf + i);
                }
                assert(self.bits() == prev.update(left_leaf + i, used));
                i = i + 1;
            }
            proof {
                let e = exp2(level as nat);
                lemma_exp2_pos(level as nat);
                assert((idx + 1) * (2 * e) - 1 == 2 * left_leaf + 1) by (nonlinear_arith)
                    requires left_leaf == (idx + 1) * e - 1, e >= 1;
            }
            let ghost ol = left_leaf as int;
            let ghost olev = level as nat;
            left_leaf = self.find_left_child(left_leaf);
            level = level + 1;
            proof {
                assert forall|k: int| 0 <= k < map_bits() implies #[trigger] self.bits()[k] == if k
                    <= max_node && in_subtree_upto(idx as int, level as nat, k) {
                    used
                } else {
                    old_bits[k]
                } by {
                    if ol <= k < ol + count {
                        assert(in_subtree_at(idx as int, olev, k));
                        assert(in_subtree_upto(idx as int, level as nat, k));
                    }
                    if in_subtree_upto(idx as int, level as nat, k) {
                        let e = choose|e: nat| e < level && #[trigger] in_subtree_at(
                            idx as int,
                            e,
                            k,
                        );
                        if e == olev {
                            assert(ol <= k < ol + count);
                        } else {
                            assert(in_subtree_upto(idx as int, olev, k));
                        }
                    }
                    if in_subtree_upto(idx as int, olev, k) {
                        let e = choose|e: nat| e < olev && #[trigger] in_subtree_at(
                            idx as int,
                            e,
                            k,
                        );
                        assert(e < level && in_subtree_at(idx as int, e, k));
                    }
                }
            }
        }
        proof {
            assert forall|k: int|
                0 <= k < map_bits() && k <= max_node implies #[trigger] in_subtree(idx as int, k)
                == in_subtree_upto(idx as int, level as nat, k) by {
                if in_subtree(idx as int, k) {
                    let e = choose|e: nat| #[trigger] in_subtree_at(idx as int, e, k);
                    if e >= level {
                        lemma_subtree_deeper(idx as nat, level as nat, e);
                        assert(false);
                    }
                }
                if in_subtree_upto(idx as int, level as nat, k) {
                    let e = choose|e: nat| e < level && #[trigger] in_subtree_at(idx as int, e, k);
                    assert(in_subtree_at(idx as int, e, k));
                }
            }
            assert(self.bits() =~= marked_subtree(old_bits, idx as int, max_node as int, used));
        }
    }

    /// Marks node `idx` and every node below it used.
    pub fn use_mem(&mut self, idx: usize)
        requires
            old(self).wf(),
            1 <= old(self).lvl() <= MAX_LEVEL,
        ensures
            final(self).wf(),
            final(self).lvl() == old(self).lvl(),
            final(self).values() == old(self).values(),
            final(self).bits() == marked_subtree(
                old(self).bits(),
                idx as int,
                old(self).spec_max_node(),
                true,
            ),
    {
        self.mark_subtree(idx, true);
    }

    /// Marks node `idx` and every node below it unused.
    pub fn unuse_mem(&mut self, idx: usize)
        requires
            old(self).wf(),
            1 <= old(self).lvl() <= MAX_LEVEL,
        ensures
            final(self).wf(),
            final(self).lvl() == old(self).lvl(),
            final(self).values() == old(self).values(),
            final(self).bits() == marked_subtree(
                old(self).bits(),
                idx as int,
                old(self).spec_max_node(),
                false,
            ),
    {
        self.mark_subtree(idx, false);
    }

    /// Whether the `counts` nodes from `left_leaf` on all lie in the map and are all unused.
    pub fn can_use(&self, left_leaf: usize, counts: usize) -> (r: bool)
        requires
            self.wf(),
        ensures
            r == range_clear(self.bits(), left_leaf as int, counts as int),
    {
        self.bitmap.mul_get_bit(left_leaf, counts)
    }


    /// Number of levels above the leaves of the blocks of `size` bytes.
    fn depth_of(size: usize) -> (r: usize)
        ensures
            r == size_depth(size),
    {
        let mut index_size = align_down(size, MIN_SIZE);
        let mut depth: usize = 0;
        proof {
            lemma_halvings_le(index_size as nat);
        }
        while index_size > MIN_SIZE
            invariant
                depth + halvings(index_size as nat) == size_depth(size),
                size_depth(size) <= usize::MAX,
            decreases index_size,
        {
            proof {
                lemma_halvings_bound(index_size as nat);
            }
            assert(index_size >> 1usize == index_size / 2) by (bit_vector);
            index_size = index_size >> 1;
            depth = depth + 1;
        }
        depth
    }

    /// The first node at the level of `size` whose value is `addr` and whose bit is `used`.
    /// Fails with `WrongSize` when blocks of `size` bytes are larger than `MAX_SIZE` or than
    /// the whole tree, and with `NotFound` when no node of that level matches.
    pub fn find_match(&self, size: usize, addr: usize, used: bool) -> (r: Result<usize, TreeErr>)
        requires
            self.wf(),
            self.lvl() <= MAX_LEVEL,
        ensures
            size > MAX_SIZE || size_depth(size) >= self.lvl() ==> r == Err::<usize, TreeErr>(
                TreeErr::WrongSize,
            ),
            size <= MAX_SIZE && size_depth(size) < self.lvl() ==> {
                let level = (self.lvl() - size_depth(size)) as nat;
                let end = exp2(level) - 1;
                let m = first_match(
                    self.values(),
                    self.bits(),
                    depth_first((level - 1) as nat),
                    end,
                    addr,
                    used,
                );
                &&& m < end ==> r == Ok::<usize, TreeErr>(m as usize)
                &&& m == end ==> r == Err::<usize, TreeErr>(TreeErr::NotFound)
            },
            size <= MAX_SIZE && size_depth(size) < self.lvl() ==> {
                let level = (self.lvl() - size_depth(size)) as nat;
                let lo = depth_first((level - 1) as nat);
                let end = exp2(level) - 1;
                &&& r matches Ok(i) ==> lo <= i < end && self.values()[i as int] == addr
                    && self.bits()[i as int] == used
                &&& forall|k: int|
                    lo <= k < (match r {
                        Ok(i) => i as int,
                        Err(_) => end,
                    }) ==> !(#[trigger] self.values()[k] == addr && self.bits()[k] == used)
            },
    {
        if size > MAX_SIZE {
            return Err(TreeErr::WrongSize);
        }
        let depth = Self::depth_of(size);
        if depth >= self.level {
            return Err(TreeErr::WrongSize);
        }
        let level = self.level - depth;
        proof {
            lemma_exp2_values();
            lemma_exp2_mono(level as nat, 11);
            lemma_exp2_mono((level - 1) as nat, level as nat);
            lemma_exp2_mono(1, level as nat);
            assert(((level + 1) - 1) as nat == level as nat);
        }
        let mut idx = self.get_index(level);
        let end = self.get_index(level + 1);
        let ghost lo = idx as int;
        proof {
            law_first_match_is_first(self.values(), self.bits(), lo, end as int, addr, used);
        }
        while idx < end
            invariant
                self.wf(),
                lo <= idx <= end,
                end <= 2047,
                size <= MAX_SIZE,
                ({
                    let m = first_match(self.values(), self.bits(), lo, end as int, addr, used);
                    &&& lo <= m <= end
                    &&& forall|k: int| lo <= k < m ==> !(#[trigger] self.values()[k] == addr
                        && self.bits()[k] == used)
                    &&& m < end ==> self.values()[m] == addr && self.bits()[m] == used
                }),
                size_depth(size) < self.lvl(),
                level == self.lvl() - size_depth(size),
                lo == depth_first((level - 1) as nat),
                end == exp2(level as nat) - 1,
                first_match(self.values(), self.bits(), lo, end as int, addr, used) == first_match(
                    self.values(),
                    self.bits(),
                    idx as int,
                    end as int,
                    addr,
                    used,
                ),
            decreases end - idx,
        {
            if self.nodes[idx] == addr && self.bitmap.get_bit(idx) == used {
                return Ok(idx);
            }
            idx = idx + 1;
        }
        Err(TreeErr::NotFound)
    }

}

proof fn lemma_halvings_bound(x: nat)
    requires
        x > MIN_SIZE,
    ensures
        halvings(x) == 1 + halvings(x / 2),
{
}

/// In a tree of `2^big_l` pages over `root`, every node starts inside the tree's memory at a
/// whole number of pages from `root`, with at least one page of the tree after it.
pub proof fn lemma_node_value_in_zone(root: int, big_l: nat, k: int)
    requires
        0 <= k < 2 * exp2(big_l) - 1,
    ensures
        ({
            let v = node_value(root, exp2(big_l) * MIN_SIZE, k);
            &&& root <= v
            &&& v + MIN_SIZE <= root + exp2(big_l) * MIN_SIZE
            &&& (v - root) % (MIN_SIZE as int) == 0
        }),
{
    let x = (k + 1) as nat;
    let d = log2(x);
    lemma_log2_bounds(x);
    lemma_exp2_add(big_l, 1);
    assert(exp2(1) == 2) by {
        lemma_exp2_values();
    }
    if d > big_l {
        lemma_exp2_mono(big_l + 1, d);
        assert(false);
    }
    let ed = exp2(d);
    let eld = exp2((big_l - d) as nat);
    lemma_exp2_add((big_l - d) as nat, d);
    assert((big_l - d) as nat + d == big_l);
    lemma_exp2_pos(d);
    lemma_exp2_pos((big_l - d) as nat);
    let mem = exp2(big_l) * MIN_SIZE;
    let bs = eld * MIN_SIZE;
    assert(mem == bs * ed) by (nonlinear_arith)
        requires mem == exp2(big_l) * MIN_SIZE, exp2(big_l) == eld * ed, bs == eld * MIN_SIZE;
    assert(mem / (ed as int) == bs) by (nonlinear_arith)
        requires mem == bs * ed, ed >= 1;
    let o = k + 1 - ed;
    assert(0 <= o < ed);
    assert(o * bs + bs <= mem) by (nonlinear_arith)
        requires 0 <= o, o + 1 <= ed, mem == bs * ed, bs >= 0;
    assert(o * bs >= 0) by (nonlinear_arith)
        requires o >= 0, bs >= 0;
    assert(bs >= MIN_SIZE) by (nonlinear_arith)
        requires bs == eld * MIN_SIZE, eld >= 1;
    assert(node_value(root, mem, k) == root + o * bs);
    vstd::arithmetic::div_mod::lemma_mod_multiples_basic(o * eld, MIN_SIZE as int);
    assert(o * bs == (o * eld) * MIN_SIZE) by (nonlinear_arith)
        requires bs == eld * MIN_SIZE;
}

/// The nodes at depth `d` of a tree of `2^big_l` pages over `root` start one block of
/// `2^(big_l - d)` pages after the other.
pub proof fn lemma_node_value_level(root: int, big_l: nat, d: nat, k: int)
    requires
        d <= big_l,
        exp2(d) - 1 <= k < exp2(d + 1) - 1,
    ensures
        node_value(root, exp2(big_l) * MIN_SIZE, k) == root + (k + 1 - exp2(d)) * (exp2(
            (big_l - d) as nat,
        ) * MIN_SIZE),
{
    lemma_log2_exp2(d, (k + 1) as nat);
    let ed = exp2(d);
    let eld = exp2((big_l - d) as nat);
    lemma_exp2_add((big_l - d) as nat, d);
    assert((big_l - d) as nat + d == big_l);
    lemma_exp2_pos(d);
    let mem = exp2(big_l) * MIN_SIZE;
    let bs = eld * MIN_SIZE;
    assert(mem == bs * ed) by (nonlinear_arith)
        requires mem == exp2(big_l) * MIN_SIZE, exp2(big_l) == eld * ed, bs == eld * MIN_SIZE;
    assert(mem / (ed as int) == bs) by (nonlinear_arith)
        requires mem == bs * ed, ed >= 1;
}

/// `first_match` finds `idx` when `idx` matches and no node from `from` to `idx` holds `addr`.
pub proof fn lemma_first_match_at(
    values: Seq<usize>,
    bits: Seq<bool>,
    from: int,
    end: int,
    addr: usize,
    used: bool,
    idx: int,
)
    requires
        from <= idx < end,
        values[idx] == addr,
        bits[idx] == used,
        forall|k: int| from <= k < idx ==> #[trigger] values[k] != addr,
    ensures
        first_match(values, bits, from, end, addr, used) == idx,
    decreases idx - from,
{
    if from < idx {
        lemma_first_match_at(values, bits, from + 1, end, addr, used, idx);
    }
}

/// The leftmost leaf below node `k` of depth `d`, in a tree of `t` levels, is `k`'s
/// descendant `t - 1 - d` levels down on the left.
pub proof fn lemma_leftmost_leaf(k: int, d: nat, t: nat)
    requires
        d < t,
        exp2(d) - 1 <= k < exp2(d + 1) - 1,
    ensures
        leftmost_leaf(k, exp2(t) - 2) == (k + 1) * exp2((t - 1 - d) as nat) - 1,
    decreases t - 1 - d,
{
    lemma_exp2_pos(d);
    lemma_exp2_add(d, 1);
    assert(exp2(1) == 2) by {
        lemma_exp2_values();
    }
    if d + 1 == t {
        assert(((t - 1 - d) as nat) == 0);
        assert(exp2(0) == 1);
        assert(!(2 * k + 1 <= exp2(t) - 2));
    } else {
        lemma_exp2_add(d + 1, 1);
        lemma_exp2_mono(d + 2, t);
        assert(2 * k + 1 <= exp2(t) - 2);
        lemma_leftmost_leaf(2 * k + 1, d + 1, t);
        let e = exp2((t - 1 - (d + 1)) as nat);
        assert(exp2((t - 1 - d) as nat) == 2 * e) by {
            assert((t - 1 - d) as nat == ((t - 1 - (d + 1)) as nat) + 1);
        }
        assert((2 * k + 1 + 1) * e - 1 == (k + 1) * (2 * e) - 1) by (nonlinear_arith);
    }
}

/// A block of `x` bytes fits in the `2^halvings(x)` pages of its level, up to less than one
/// byte per page.
pub proof fn lemma_halvings_cover(x: nat)
    ensures
        x + 1 <= exp2(halvings(x)) * (MIN_SIZE + 1),
    decreases x,
{
    assert(MIN_SIZE == 4096);
    if x > MIN_SIZE {
        lemma_halvings_cover(x / 2);
        let e = exp2(halvings(x / 2));
        assert(exp2(halvings(x)) == 2 * e);
        assert(x <= 2 * (x / 2) + 1);
    } else {
        assert(exp2(0) == 1);
    }
}

/// `unuse_mem` after `use_mem` on the same node leaves that node's subtree unused and the
/// other bits as they were; when the subtree was unused before, it gives the bits back.
pub proof fn law_unuse_after_use(bits: Seq<bool>, idx: int, max_node: int)
    ensures
        marked_subtree(marked_subtree(bits, idx, max_node, true), idx, max_node, false)
            == marked_subtree(bits, idx, max_node, false),
        (forall|k: int|
            0 <= k < bits.len() && k <= max_node && in_subtree(idx, k) ==> !#[trigger] bits[k])
            ==> marked_subtree(bits, idx, max_node, false) == bits,
{
    assert(marked_subtree(marked_subtree(bits, idx, max_node, true), idx, max_node, false)
        =~= marked_subtree(bits, idx, max_node, false));
    if forall|k: int|
        0 <= k < bits.len() && k <= max_node && in_subtree(idx, k) ==> !#[trigger] bits[k] {
        assert(marked_subtree(bits, idx, max_node, false) =~= bits);
    }
}

/// On a tree whose subtree of `idx` is unused, `use_mem(idx)` followed by `unuse_mem(idx)`
/// gives back the tree's bits, values and levels as they were.
pub proof fn law_tree_unuse_after_use(t: BinTree, used: BinTree, freed: BinTree, idx: int)
    requires
        t.wf(),
        forall|k: int|
            0 <= k <= t.spec_max_node() && in_subtree(idx, k) ==> !#[trigger] t.bits()[k],
        used.lvl() == t.lvl(),
        used.values() == t.values(),
        used.bits() == marked_subtree(t.bits(), idx, t.spec_max_node(), true),
        freed.lvl() == used.lvl(),
        freed.values() == used.values(),
        freed.bits() == marked_subtree(used.bits(), idx, used.spec_max_node(), false),
    ensures
        freed.bits() == t.bits(),
        freed.values() == t.values(),
        freed.lvl() == t.lvl(),
{
    law_unuse_after_use(t.bits(), idx, t.spec_max_node());
}

/// A node `x` that lies `e` levels below node `idx` of depth `d` lies at depth `d + e`.
pub proof fn lemma_subtree_depth(idx: int, d: nat, e: nat, x: int)
    requires
        exp2(d) - 1 <= idx < exp2(d + 1) - 1,
        in_subtree_at(idx, e, x),
    ensures
        exp2(d + e) - 1 <= x < exp2(d + e + 1) - 1,
{
    lemma_exp2_add(d, e);
    lemma_exp2_add(d + 1, e);
    assert(d + 1 + e == d + e + 1);
    let ee = exp2(e);
    lemma_exp2_pos(e);
    assert(exp2(d) * ee <= (idx + 1) * ee) by (nonlinear_arith)
        requires exp2(d) <= idx + 1, ee >= 1;
    assert((idx + 2) * ee <= exp2(d + 1) * ee) by (nonlinear_arith)
        requires idx + 2 <= exp2(d + 1), ee >= 1;
}

/// Nodes at one depth lie in disjoint subtrees: a node of depth `d` other than `idx` is not
/// in the subtree of `idx`, nor is a node of a deeper depth that comes before the first
/// descendant of `idx` at that depth.
pub proof fn lemma_not_in_subtree(idx: int, d: nat, x: int, dx: nat)
    requires
        exp2(d) - 1 <= idx < exp2(d + 1) - 1,
        d <= dx,
        exp2(dx) - 1 <= x < exp2(dx + 1) - 1,
        x < (idx + 1) * exp2((dx - d) as nat) - 1 || (dx == d && x != idx),
    ensures
        !in_subtree(idx, x),
{
    if in_subtree(idx, x) {
        let e = choose|e: nat| #[trigger] in_subtree_at(idx, e, x);
        lemma_subtree_depth(idx, d, e, x);
        if d + e < dx {
            lemma_exp2_mono(d + e + 1, dx);
            assert(false);
        } else if d + e > dx {
            lemma_exp2_mono(dx + 1, d + e);
            assert(false);
        } else {
            assert(e == (dx - d) as nat);
            if dx == d {
                assert(exp2(0) == 1);
                assert(e == 0);
                let one = exp2(e);
                assert(one == 1);
                assert((idx + 1) * one == idx + 1 && (idx + 2) * one == idx + 2) by (nonlinear_arith)
                    requires one == 1;
                assert(false);
            } else {
                assert(false);
            }
        }
    }
}

/// A node lies in its own subtree.
pub proof fn lemma_in_own_subtree(idx: int)
    ensures
        in_subtree(idx, idx),
{
    assert(exp2(0) == 1);
    assert(in_subtree_at(idx, 0, idx));
}

/// The search of `first_unused` stays in `from..=hi`.
pub proof fn lemma_first_unused_range(bits: Seq<bool>, from: int, hi: int, max_node: int, count: int)
    requires
        from <= hi,
    ensures
        from <= first_unused(bits, from, hi, max_node, count) <= hi,
    decreases hi - from,
{
    if from < hi {
        lemma_first_unused_range(bits, from + 1, hi, max_node, count);
    }
}

/// The search of `first_used` finds the first used node: every node before the one found is
/// unused, and the node found, unless it is `hi`, is used.
pub proof fn law_first_used_is_first(bits: Seq<bool>, from: int, hi: int)
    requires
        from <= hi,
    ensures
        ({
            let r = first_used(bits, from, hi);
            &&& from <= r <= hi
            &&& forall|k: int| from <= k < r ==> !#[trigger] bits[k]
            &&& r < hi ==> bits[r]
        }),
    decreases hi - from,
{
    if from < hi && !bits[from] {
        law_first_used_is_first(bits, from + 1, hi);
    }
}

/// The search of `first_unused` finds the first node that can take `count` pages: the node
/// found, unless it is `hi`, is unused and each of the `count` leaves from its leftmost leaf
/// lies in the map and is unused; every node before it is used or has a used (or missing)
/// leaf among those.
pub proof fn law_first_unused_is_first_fit(
    bits: Seq<bool>,
    from: int,
    hi: int,
    max_node: int,
    count: int,
)
    requires
        from <= hi,
    ensures
        ({
            let m = first_unused(bits, from, hi, max_node, count);
            &&& from <= m <= hi
            &&& m < hi ==> {
                let lm = leftmost_leaf(m, max_node);
                &&& !bits[m]
                &&& 0 <= lm
                &&& lm + count <= map_bits()
                &&& forall|j: int| lm <= j < lm + count ==> !#[trigger] bits[j]
            }
            &&& forall|k: int|
                from <= k < m ==> {
                    let lk = leftmost_leaf(k, max_node);
                    ||| #[trigger] bits[k]
                    ||| lk < 0
                    ||| lk + count > map_bits()
                    ||| exists|j: int| lk <= j < lk + count && bits[j]
                }
        }),
    decreases hi - from,
{
    if from < hi {
        law_first_unused_is_first_fit(bits, from + 1, hi, max_node, count);
    }
}

/// The search of `first_match` finds the first node with value `addr` and bit `used`: no node
/// before the one found has both, and the node found, unless it is `end`, has both.
pub proof fn law_first_match_is_first(
    values: Seq<usize>,
    bits: Seq<bool>,
    from: int,
    end: int,
    addr: usize,
    used: bool,
)
    requires
        from <= end,
    ensures
        ({
            let r = first_match(values, bits, from, end, addr, used);
            &&& from <= r <= end
            &&& forall|k: int| from <= k < r ==> !(#[trigger] values[k] == addr && bits[k] == used)
            &&& r < end ==> values[r] == addr && bits[r] == used
        }),
    decreases end - from,
{
    if from < end {
        law_first_match_is_first(values, bits, from + 1, end, addr, used);
    }
}

/// The search of `first_match` stays in `from..=end`.
pub proof fn lemma_first_match_range(
    values: Seq<usize>,
    bits: Seq<bool>,
    from: int,
    end: int,
    addr: usize,
    used: bool,
)
    requires
        from <= end,
    ensures
        from <= first_match(values, bits, from, end, addr, used) <= end,
    decreases end - from,
{
    if from < end {
        lemma_first_match_range(values, bits, from + 1, end, addr, used);
    }
}

/// Blocks of at most `2^n` pages lie at most `n` levels above the leaves.
pub proof fn lemma_halvings_exp2(x: nat, n: nat)
    requires
        x <= exp2(n) * MIN_SIZE,
    ensures
        halvings(x) <= n,
    decreases n,
{
    assert(MIN_SIZE == 4096);
    if x > MIN_SIZE {
        if n == 0 {
            assert(exp2(0) == 1);
            assert(exp2(n) * 4096 == 4096);
            assert(false);
        } else {
            let e = exp2((n - 1) as nat);
            assert(exp2(n) == 2 * e);
            assert(x / 2 <= e * 4096);
            lemma_halvings_exp2(x / 2, (n - 1) as nat);
        }
    }
}

proof fn lemma_halvings_le(x: nat)
    ensures
        halvings(x) <= x,
    decreases x,
{
    if x > MIN_SIZE {
        lemma_halvings_le(x / 2);
    }
}

/// Facts about `tree_pages`: it is a power of two when positive.
proof fn lemma_floor_pow2_facts(size: usize)
    ensures
        tree_pages(size) <= size as nat / MIN_SIZE as nat,
        tree_pages(size) > 0 ==> is_pow2(tree_pages(size)),
{
    super::index::lemma_floor_pow2(size as nat / MIN_SIZE as nat);
}

} // verus!
