//! A list of free chunks, from its head to its tail.
use vstd::prelude::*;

use crate::align::{align_down, align_up, is_align, lemma_align_exp2, spec_align_down, spec_align_up, spec_is_align};
use crate::bintree::index::is_pow2;

verus! {

/// Where `pop_algin` stops in the chunks `s`: the first position that holds an address
/// aligned to `align` or the address of the last chunk.
pub open spec fn align_stop(s: Seq<usize>, align: usize) -> int
    recommends
        s.len() > 0,
{
    align_stop_from(s, 0, align)
}

/// Where `pop_algin` stops when the walk starts at position `from` of `s`.
pub open spec fn align_stop_from(s: Seq<usize>, from: int, align: usize) -> int
    decreases s.len() - from,
{
    if from >= s.len() - 1 {
        from
    } else if spec_is_align(s[from], align) || s[from] == s.last() {
        from
    } else {
        align_stop_from(s, from + 1, align)
    }
}

/// The chunks of `chunk_size` bytes that cover `start..end`, in address order.
pub open spec fn chunks(start: int, end: int, chunk_size: int) -> Seq<usize> {
    Seq::new(((end - start) / chunk_size) as nat, |i: int| (start + i * chunk_size) as usize)
}

/// A list of free chunks. Its view lists their addresses from the head to the tail.
#[derive(Clone, Debug)]
pub struct Linkedlist {
    nodes: Vec<usize>,
}

impl View for Linkedlist {
    type V = Seq<usize>;

    closed spec fn view(&self) -> Seq<usize> {
        self.nodes@
    }
}

/// Walks the chunks of a list from its head; it stops at the last chunk without handing it out.
#[derive(Clone, Debug)]
pub struct LinkedlistIter {
    nodes: Vec<usize>,
    current: usize,
}

impl LinkedlistIter {
    /// The chunks of the list the walk started from.
    pub closed spec fn chunks(&self) -> Seq<usize> {
        self.nodes@
    }

    /// Position of the chunk the walk is at.
    pub closed spec fn position(&self) -> nat {
        self.current as nat
    }

    /// The chunk the walk is at, if it is not the last one, and the walk moves to the next
    /// chunk; at the last chunk it gives `None` and stays there.
    pub fn next(&mut self) -> (r: Option<usize>)
        requires
            old(self).position() < old(self).chunks().len(),
        ensures
            final(self).chunks() == old(self).chunks(),
            old(self).position() + 1 < old(self).chunks().len() ==> {
                &&& r == Some(old(self).chunks()[old(self).position() as int])
                &&& final(self).position() == old(self).position() + 1
            },
            old(self).position() + 1 >= old(self).chunks().len() ==> {
                &&& r is None
                &&& final(self).position() == old(self).position()
            },
    {
        if self.current >= self.nodes.len() - 1 {
            None
        } else {
            let item = self.nodes[self.current];
            self.current = self.current + 1;
            Some(item)
        }
    }
}

impl Linkedlist {
    /// No chunk lies at address `0`.
    pub open spec fn wf(&self) -> bool {
        forall|k: int| 0 <= k < self@.len() ==> #[trigger] self@[k] != 0
    }

    /// An empty list.
    pub fn new() -> (r: Self)
        ensures
            r@ == Seq::<usize>::empty(),
            r.wf(),
    {
        Self { nodes: Vec::new() }
    }

    /// A walk over the chunks from the head.
    pub fn iter(&self) -> (r: LinkedlistIter)
        ensures
            r.chunks() == self@,
            r.position() == 0,
    {
        let mut nodes: Vec<usize> = Vec::new();
        let mut i: usize = 0;
        while i < self.nodes.len()
            invariant
                i <= self.nodes.len(),
                nodes@ == self.nodes@.subrange(0, i as int),
            decreases self.nodes.len() - i,
        {
            nodes.push(self.nodes[i]);
            i = i + 1;
        }
        assert(nodes@ =~= self.nodes@);
        LinkedlistIter { nodes, current: 0 }
    }

    /// Whether the list has no chunk.
    pub fn is_empty(&self) -> (r: bool)
        ensures
            r == (self@.len() == 0),
    {
        self.nodes.len() == 0
    }

    /// The chunk at the head, if any.
    pub fn first(&self) -> (r: Option<usize>)
        ensures
            self@.len() > 0 ==> r == Some(self@[0]),
            self@.len() == 0 ==> r is None,
    {
        if self.nodes.len() == 0 {
            None
        } else {
            Some(self.nodes[0])
        }
    }

    /// Number of chunks: the last one plus every one the walk hands out.
    pub fn len(&self) -> (r: usize)
        ensures
            r == self@.len(),
    {
        let mut len: usize = 1;
        if self.is_empty() {
            return 0;
        }
        let n = self.nodes.len();
        let mut it = self.iter();
        loop
            invariant
                it.chunks() == self@,
                n == self@.len(),
                it.position() < n,
                len == it.position() + 1,
            ensures
                len == n,
            decreases n - it.position(),
        {
            match it.next() {
                Some(_) => {
                    len = len + 1;
                },
                None => {
                    break ;
                },
            }
        }
        len
    }

    /// Fills the list with the chunks of `chunk_size` bytes that cover `start..end`, both
    /// rounded inwards to multiples of `chunk_size`, head at the lowest address.
    pub fn init(&mut self, start: usize, end: usize, chunk_size: usize)
        requires
            is_pow2(chunk_size as nat),
                0 < spec_align_up(start, chunk_size) < spec_align_down(end, chunk_size),
        ensures
            final(self)@ == chunks(
                spec_align_up(start, chunk_size),
                spec_align_down(end, chunk_size) as int,
                chunk_size as int,
            ),
            final(self).wf(),
    {
        proof {
            lemma_align_exp2(start, chunk_size);
            lemma_align_exp2(end, chunk_size);
        }
        let start = align_up(start, chunk_size);
        let end = align_down(end, chunk_size);
        let ghost count = ((end - start) / chunk_size as int) as nat;
        proof {
            assert(start % chunk_size == 0);
            assert(end % chunk_size == 0);
            crate::align::lemma_sub_multiples(end as int, start as int, chunk_size as int);
            assert(count >= 1) by (nonlinear_arith)
                requires
                    count == (end - start) / chunk_size as int,
                    start < end,
                    (end - start) % (chunk_size as int) == 0,
                    chunk_size > 0;
        }
        let mut nodes: Vec<usize> = Vec::new();
        let mut address = start;
        assert(address == start + 0 * chunk_size);
        loop
            invariant_except_break
                start <= address < end,
                nodes.len() < count,
                address == start + nodes.len() * chunk_size,
            invariant
                0 < start < end,
                chunk_size > 0,
                (end - start) % (chunk_size as int) == 0,
                count == (end - start) / chunk_size as int,
                forall|i: int|
                    0 <= i < nodes.len() ==> #[trigger] nodes@[i] == start + i * chunk_size,
            ensures
                nodes.len() == count,
            decreases end - address,
        {
            nodes.push(address);
            proof {
                assert(address + chunk_size <= end) by (nonlinear_arith)
                    requires
                        address == start + (nodes.len() - 1) * chunk_size,
                        nodes.len() - 1 < count,
                        count == (end - start) / chunk_size as int,
                        (end - start) % (chunk_size as int) == 0,
                        chunk_size > 0,
                        start < end;
            }
            if address + chunk_size == end {
                proof {
                    assert(nodes.len() == count) by (nonlinear_arith)
                        requires
                            address == start + (nodes.len() - 1) * chunk_size,
                            address + chunk_size == end,
                            count == (end - start) / chunk_size as int,
                            chunk_size > 0;
                }
                break ;
            }
            address = address + chunk_size;
            proof {
                assert(address == start + nodes.len() * chunk_size) by (nonlinear_arith)
                    requires
                        address == start + (nodes.len() - 1) * chunk_size + chunk_size;
                assert(nodes.len() < count) by (nonlinear_arith)
                    requires
                        address == start + nodes.len() * chunk_size,
                        address < end,
                        count == (end - start) / chunk_size as int,
                        (end - start) % (chunk_size as int) == 0,
                        chunk_size > 0;
            }
        }
        self.nodes = nodes;
        proof {
            assert(self@ =~= chunks(start as int, end as int, chunk_size as int));
            assert forall|k: int| 0 <= k < self@.len() implies #[trigger] self@[k] != 0 by {
                assert(self@[k] == start + k * chunk_size);
                assert(k * chunk_size >= 0) by (nonlinear_arith)
                    requires k >= 0, chunk_size > 0;
            }
        }
    }

    /// Takes the chunk at the head.
    pub fn pop(&mut self) -> (r: Option<usize>)
        ensures
            old(self)@.len() == 0 ==> r is None && final(self)@ == old(self)@,
            old(self)@.len() > 0 ==> r == Some(old(self)@[0]) && final(self)@ == old(self)@.subrange(
                1,
                old(self)@.len() as int,
            ),
            old(self).wf() ==> final(self).wf(),
    {
        if self.nodes.len() == 0 {
            None
        } else {
            Some(self.nodes.remove(0))
        }
    }

    /// Takes the first chunk, from the head on, whose address is a multiple of `algin`, and
    /// moves the chunks before it to the tail. When the walk reaches the chunk that was the
    /// tail and it is not aligned, that chunk is dropped and nothing is returned.
    pub fn pop_algin(&mut self, algin: usize) -> (r: Option<usize>)
        requires
            algin > 0,
            old(self).wf(),
        ensures
            final(self).wf(),
            old(self)@.len() == 0 ==> r is None && final(self)@ == old(self)@,
            old(self)@.len() > 0 ==> {
                let s = old(self)@;
                let j = align_stop(s, algin);
                &&& r == if spec_is_align(s[j], algin) {
                    Some(s[j])
                } else {
                    None
                }
                &&& final(self)@ == s.subrange(j + 1, s.len() as int) + s.subrange(0, j)
            },
    {
        let n = self.nodes.len();
        if n == 0 {
            return None;
        }
        let tail_now = self.nodes[n - 1];
        let ghost s = self@;
        let ghost j = align_stop(s, algin);
        let mut i: usize = 0;
        proof {
            lemma_align_stop_range(s, 0, algin);
        }
        loop
            invariant
                algin > 0,
                s == old(self)@,
                n == s.len(),
                n > 0,
                tail_now == s.last(),
                0 <= i <= j < n,
                j == align_stop(s, algin),
                align_stop_from(s, i as int, algin) == j,
                self@ == s.subrange(i as int, n as int) + s.subrange(0, i as int),
                self.wf(),
                forall|k: int| 0 <= k < n ==> #[trigger] s[k] != 0,
            decreases n - i,
        {
            let p = match self.pop() {
                Some(p) => p,
                None => {
                    assert(false);
                    return None;
                },
            };
            assert(p == s[i as int]);
            if p == tail_now && !is_align(p, algin) {
                assert(self@ =~= s.subrange(i + 1, n as int) + s.subrange(0, i as int));
                return None;
            }
            if is_align(p, algin) {
                assert(self@ =~= s.subrange(i + 1, n as int) + s.subrange(0, i as int));
                return Some(p);
            }
            self.push_tail(p);
            proof {
                assert(align_stop_from(s, i as int, algin) == align_stop_from(s, i + 1, algin));
                lemma_align_stop_range(s, i + 1, algin);
                assert(self@ =~= s.subrange(i + 1, n as int) + s.subrange(0, i + 1));
            }
            i = i + 1;
        }
    }

    /// Whether `pop_algin` hands out a chunk for `algin`; nothing changes.
    pub fn can_pop_algin(&self, algin: usize) -> (r: bool)
        requires
            algin > 0,
        ensures
            r == (self@.len() > 0 && spec_is_align(self@[align_stop(self@, algin)], algin)),
    {
        let n = self.nodes.len();
        if n == 0 {
            return false;
        }
        let ghost s = self@;
        let tail_now = self.nodes[n - 1];
        let mut i: usize = 0;
        proof {
            lemma_align_stop_range(s, 0, algin);
        }
        while i < n - 1 && !is_align(self.nodes[i], algin) && self.nodes[i] != tail_now
            invariant
                algin > 0,
                s == self@,
                n == s.len(),
                n > 0,
                tail_now == s.last(),
                i < n,
                align_stop_from(s, i as int, algin) == align_stop(s, algin),
            decreases n - i,
        {
            i = i + 1;
        }
        is_align(self.nodes[i], algin)
    }

    /// Puts the chunk at `address` at the head.
    pub fn push(&mut self, address: usize)
        requires
            address != 0,
        ensures
            final(self)@ == seq![address] + old(self)@,
            old(self).wf() ==> final(self).wf(),
    {
        self.nodes.insert(0, address);
        assert(self@ =~= seq![address] + old(self)@);
    }

    /// Puts the chunk at `address` at the tail.
    pub fn push_tail(&mut self, address: usize)
        requires
            old(self)@.len() > 0,
            address != 0,
        ensures
            final(self)@ == old(self)@.push(address),
            old(self).wf() ==> final(self).wf(),
    {
        self.nodes.push(address);
    }
}

/// `pop` after `push` gives back the pushed address and the list from before.
pub proof fn law_pop_after_push(s: Seq<usize>, address: usize)
    ensures
        (seq![address] + s).len() > 0,
        (seq![address] + s)[0] == address,
        (seq![address] + s).subrange(1, (seq![address] + s).len() as int) == s,
{
    assert((seq![address] + s).subrange(1, (seq![address] + s).len() as int) =~= s);
}

/// `pop_algin` after `push` of an aligned address gives back that address and the list
/// from before.
pub proof fn law_pop_algin_after_push(s: Seq<usize>, address: usize, algin: usize)
    requires
        spec_is_align(address, algin),
    ensures
        ({
            let t = seq![address] + s;
            let j = align_stop(t, algin);
            &&& j == 0
            &&& t[j] == address
            &&& t.subrange(j + 1, t.len() as int) + t.subrange(0, j) == s
        }),
{
    let t = seq![address] + s;
    assert(t[0] == address);
    assert(align_stop_from(t, 0, algin) == 0);
    assert(t.subrange(1, t.len() as int) + t.subrange(0, 0) =~= s);
}

/// The walk of `pop_algin` stops inside the list.
pub proof fn lemma_align_stop_range(s: Seq<usize>, from: int, align: usize)
    requires
        0 <= from < s.len(),
    ensures
        from <= align_stop_from(s, from, align) < s.len(),
    decreases s.len() - from,
{
    if from < s.len() - 1 && !(spec_is_align(s[from], align) || s[from] == s.last()) {
        lemma_align_stop_range(s, from + 1, align);
    }
}

} // verus!
