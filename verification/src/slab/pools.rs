//! Operations on one list of an array of free lists.
use vstd::prelude::*;

use crate::def::{PGSZ, POOL_COUNT, POOL_PGSZ};
use crate::linklist::link::Linkedlist;

verus! {

/// The chunks of each list, head first.
pub open spec fn views(p: Seq<Linkedlist>) -> Seq<Seq<usize>> {
    Seq::new(p.len(), |i: int| p[i]@)
}

/// There are `POOL_COUNT` lists and no chunk lies at address `0`.
pub open spec fn pools_wf(p: Seq<Linkedlist>) -> bool {
    &&& p.len() == POOL_COUNT
    &&& forall|i: int| 0 <= i < POOL_COUNT ==> #[trigger] p[i].wf()
}

/// The chunks of `size` bytes of the page at `start`, from the highest address down.
pub open spec fn rev_chunks(start: int, size: int) -> Seq<usize> {
    Seq::new((PGSZ as int / size) as nat, |i: int| (start + PGSZ - (i + 1) * size) as usize)
}

/// The first `n` chunks of `size` bytes from `start` on, from the highest address down.
pub open spec fn desc_chunks(start: int, n: nat, size: int) -> Seq<usize> {
    Seq::new(n, |k: int| (start + (n - 1 - k) * size) as usize)
}

/// Whether `allocate_from` can take a chunk from list `index`: the list is not empty, or the
/// page list has a page that ends inside memory.
pub open spec fn can_take(v: Seq<Seq<usize>>, index: int) -> bool {
    v[index].len() == 0 ==> {
        let pages = v[POOL_PGSZ as int];
        pages.len() > 0 && pages[0] + PGSZ <= usize::MAX
    }
}

/// The chunk `allocate_from` takes from list `index` and the lists it leaves: the head of the
/// list, or else the highest chunk of `size` bytes of the head page of the page list, the
/// other chunks of that page being left in the list.
pub open spec fn take_chunk(v: Seq<Seq<usize>>, index: int, size: int) -> (usize, Seq<Seq<usize>>) {
    let s = v[index];
    if s.len() > 0 {
        (s[0], v.update(index, s.subrange(1, s.len() as int)))
    } else {
        let pages = v[POOL_PGSZ as int];
        let fresh = rev_chunks(pages[0] as int, size);
        (
            fresh[0],
            v.update(POOL_PGSZ as int, pages.subrange(1, pages.len() as int)).update(
                index,
                fresh.subrange(1, fresh.len() as int),
            ),
        )
    }
}

/// `count` empty lists.
pub fn empty_pools(count: usize) -> (r: Vec<Linkedlist>)
    ensures
        r@.len() == count,
        forall|i: int| 0 <= i < count ==> #[trigger] r@[i]@ == Seq::<usize>::empty() && r@[i].wf(),
{
    let mut pool: Vec<Linkedlist> = Vec::new();
    while pool.len() < count
        invariant
            pool.len() <= count,
            forall|i: int|
                0 <= i < pool.len() ==> #[trigger] pool@[i]@ == Seq::<usize>::empty() && pool@[i].wf(),
        decreases count - pool.len(),
    {
        pool.push(Linkedlist::new());
    }
    pool
}

/// Takes the head chunk of list `index`.
pub fn pop_at(pool: &mut Vec<Linkedlist>, index: usize) -> (r: Option<usize>)
    requires
        pools_wf(old(pool)@),
        index < POOL_COUNT,
    ensures
        pools_wf(final(pool)@),
        ({
            let s = views(old(pool)@)[index as int];
            &&& s.len() == 0 ==> r is None && views(final(pool)@) == views(old(pool)@)
            &&& s.len() > 0 ==> r == Some(s[0]) && views(final(pool)@) == views(old(pool)@).update(
                index as int,
                s.subrange(1, s.len() as int),
            )
        }),
{
    let ghost old_views = views(pool@);
    let mut list = pool.remove(index);
    assert(list@ == old_views[index as int]);
    let r = list.pop();
    pool.insert(index, list);
    assert(views(pool@) =~= old_views.update(index as int, list@));
    proof {
        if old_views[index as int].len() == 0 {
            assert(views(pool@) =~= old_views);
        }
    }
    r
}

/// Puts the chunk at `address` at the head of list `index`.
pub fn push_at(pool: &mut Vec<Linkedlist>, index: usize, address: usize)
    requires
        pools_wf(old(pool)@),
        index < POOL_COUNT,
        address != 0,
    ensures
        pools_wf(final(pool)@),
        views(final(pool)@) == views(old(pool)@).update(
            index as int,
            seq![address] + views(old(pool)@)[index as int],
        ),
{
    let ghost old_views = views(pool@);
    let mut list = pool.remove(index);
    assert(list@ == old_views[index as int]);
    list.push(address);
    pool.insert(index, list);
    assert(views(pool@) =~= old_views.update(index as int, list@));
}

/// Fills list `index` with the chunks of `chunk_size` bytes that cover `start..end`.
pub fn init_at(pool: &mut Vec<Linkedlist>, index: usize, start: usize, end: usize, chunk_size: usize)
    requires
        pools_wf(old(pool)@),
        index < POOL_COUNT,
        crate::bintree::index::is_pow2(chunk_size as nat),
        0 < crate::align::spec_align_up(start, chunk_size) < crate::align::spec_align_down(
            end,
            chunk_size,
        ),
    ensures
        pools_wf(final(pool)@),
        views(final(pool)@) == views(old(pool)@).update(
            index as int,
            crate::linklist::link::chunks(
                crate::align::spec_align_up(start, chunk_size),
                crate::align::spec_align_down(end, chunk_size) as int,
                chunk_size as int,
            ),
        ),
{
    let ghost old_views = views(pool@);
    let mut list = pool.remove(index);
    list.init(start, end, chunk_size);
    pool.insert(index, list);
    assert(views(pool@) =~= old_views.update(index as int, list@));
}

/// Number of chunks of list `index`.
pub fn len_at(pool: &Vec<Linkedlist>, index: usize) -> (r: usize)
    requires
        pools_wf(pool@),
        index < POOL_COUNT,
    ensures
        r == views(pool@)[index as int].len(),
{
    pool[index].len()
}

/// Takes a chunk of `size` bytes from list `index`. When the list is empty, the head page
/// of the page list is cut into chunks of `size` bytes, pushed at the head one by one from the
/// lowest address, and the last one pushed is returned.
pub fn allocate_from(pool: &mut Vec<Linkedlist>, index: usize, size: usize) -> (r: Option<usize>)
    requires
        pools_wf(old(pool)@),
        index < POOL_PGSZ,
        size == 32 || size == 64 || size == 128 || size == 256 || size == 512 || size == 1024 || size
            == 2048 || size == 4096,
        can_take(views(old(pool)@), index as int),
    ensures
        pools_wf(final(pool)@),
        r == Some(take_chunk(views(old(pool)@), index as int, size as int).0),
        views(final(pool)@) == take_chunk(views(old(pool)@), index as int, size as int).1,
{
    let ghost v = views(pool@);
    if let Some(ptr) = pop_at(pool, index) {
        return Some(ptr);
    }
    let page = match pop_at(pool, POOL_PGSZ) {
        Some(p) => p,
        None => {
            assert(false);
            return None;
        },
    };
    let ghost v1 = views(pool@);
    let start = page;
    let end = start + PGSZ;
    let ghost count = (PGSZ / size) as nat;
    let mut address = start;
    let ghost mut i: nat = 0;
    proof {
        assert(v[POOL_PGSZ as int][0] == page);
        assert(page != 0) by {
            assert(old(pool)@[POOL_PGSZ as int].wf());
        }
        if size == 32 {
            assert(4096usize / size == 128usize) by (bit_vector)
                requires size == 32usize;
        } else if size == 64 {
            assert(4096usize / size == 64usize) by (bit_vector)
                requires size == 64usize;
        } else if size == 128 {
            assert(4096usize / size == 32usize) by (bit_vector)
                requires size == 128usize;
        } else if size == 256 {
            assert(4096usize / size == 16usize) by (bit_vector)
                requires size == 256usize;
        } else if size == 512 {
            assert(4096usize / size == 8usize) by (bit_vector)
                requires size == 512usize;
        } else if size == 1024 {
            assert(4096usize / size == 4usize) by (bit_vector)
                requires size == 1024usize;
        } else if size == 2048 {
            assert(4096usize / size == 2usize) by (bit_vector)
                requires size == 2048usize;
        } else {
            assert(4096usize / size == 1usize) by (bit_vector)
                requires size == 4096usize;
        }
        assert(count * size == PGSZ);
        assert(desc_chunks(start as int, 0, size as int) =~= Seq::<usize>::empty());
        assert(v[index as int].len() == 0);
        assert(v1[index as int] == v[index as int]);
        assert(v1[index as int] =~= Seq::<usize>::empty());
        assert(views(pool@) =~= v1.update(index as int, desc_chunks(start as int, i, size as int)));
    }
    while address < end
        invariant
            pools_wf(pool@),
            index < POOL_PGSZ,
            start != 0,
            end == start + PGSZ,
            end <= usize::MAX,
            count * size == PGSZ,
            size > 0,
            i <= count,
            address == start + i * size,
            views(pool@) == v1.update(
                index as int,
                desc_chunks(start as int, i, size as int),
            ),
            v1[index as int] == Seq::<usize>::empty(),
            v1.len() == POOL_COUNT,
        decreases end - address,
    {
        proof {
            if i >= count {
                assert(i * size >= count * size) by (nonlinear_arith)
                    requires i >= count, size > 0;
                assert(false);
            }
            assert(address + size <= end) by (nonlinear_arith)
                requires address == start + i * size, i + 1 <= count, count * size == PGSZ, end == start + PGSZ;
        }
        let ghost before = views(pool@);
        push_at(pool, index, address);
        address = address + size;
        proof {
            let ni = i + 1;
            assert(address == start + ni * size) by (nonlinear_arith)
                requires address == start + i * size + size, ni == i + 1;
            assert forall|k: int| 0 <= k < ni implies #[trigger] desc_chunks(start as int, ni, size as int)[k]
                == (seq![(address - size) as usize] + desc_chunks(start as int, i, size as int))[k] by {
                if k > 0 {
                    assert((ni - 1 - k) == (i - 1 - (k - 1)));
                } else {
                    assert(start + (ni - 1 - 0) * size == address - size) by (nonlinear_arith)
                        requires address == start + ni * size;
                }
            }
            assert(seq![(address - size) as usize] + desc_chunks(start as int, i, size as int)
                =~= desc_chunks(start as int, ni, size as int));
            assert(before[index as int] == desc_chunks(start as int, i, size as int));
            assert(views(pool@) == before.update(
                index as int,
                seq![(address - size) as usize] + before[index as int],
            ));
            assert(views(pool@) =~= v1.update(index as int, desc_chunks(start as int, ni, size as int)));
            i = ni;
        }
    }
    proof {
        if i < count {
            assert(i * size < count * size) by (nonlinear_arith)
                requires i < count, size > 0;
        }
        assert(i == count);
        let fresh = rev_chunks(page as int, size as int);
        assert forall|k: int| 0 <= k < i implies #[trigger] desc_chunks(start as int, i, size as int)[k]
            == fresh[k] by {
            assert((i - 1 - k) * size == i * size - (k + 1) * size) by (nonlinear_arith);
        }
        assert(desc_chunks(start as int, i, size as int) =~= fresh);
    }
    pop_at(pool, index)
}

/// The chunk that `take_chunk` hands out is not at address `0`.
pub proof fn lemma_take_chunk_nonzero(p: Seq<Linkedlist>, index: int, size: int)
    requires
        pools_wf(p),
        0 <= index < POOL_PGSZ,
        0 < size <= PGSZ,
        can_take(views(p), index),
    ensures
        take_chunk(views(p), index, size).0 != 0,
{
    let v = views(p);
    assert(v[index] == p[index]@);
    assert(p[index].wf());
    if v[index].len() == 0 {
        let pages = v[POOL_PGSZ as int];
        assert(pages == p[POOL_PGSZ as int]@);
        assert(p[POOL_PGSZ as int].wf());
        assert(pages[0] != 0);
        let fresh = rev_chunks(pages[0] as int, size);
        assert(PGSZ as int / size >= 1) by (nonlinear_arith)
            requires 0 < size <= 4096;
        assert(fresh[0] == (pages[0] + PGSZ - size) as usize);
    }
}

} // verus!
