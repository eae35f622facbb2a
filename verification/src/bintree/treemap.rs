//! Bitmap over the nodes of a tree: a set bit marks a used node.
use vstd::prelude::*;

use super::def::{BITS_PER_BYTE, MAX_NODES};

verus! {

/// Number of bits that a bitmap holds.
pub open spec fn map_bits() -> nat {
    (MAX_NODES * BITS_PER_BYTE) as nat
}

/// Bit `j` of the byte `b`.
pub open spec fn byte_bit(b: u8, j: int) -> bool {
    (b >> (j as u8)) & 1u8 == 1u8
}

proof fn lemma_byte_set(b: u8, j: u8, k: u8)
    requires
        j < 8,
        k < 8,
    ensures
        byte_bit(b | (1u8 << j), k as int) == if j == k { true } else { byte_bit(b, k as int) },
{
    assert(((b | (1u8 << j)) >> k) & 1u8 == 1u8 <==> (j == k || (b >> k) & 1u8 == 1u8))
        by (bit_vector)
        requires j < 8u8, k < 8u8;
}

proof fn lemma_byte_unset(b: u8, j: u8, k: u8)
    requires
        j < 8,
        k < 8,
    ensures
        byte_bit(b & !(1u8 << j), k as int) == if j == k { false } else { byte_bit(b, k as int) },
{
    assert(((b & !(1u8 << j)) >> k) & 1u8 == 1u8 <==> (j != k && (b >> k) & 1u8 == 1u8))
        by (bit_vector)
        requires j < 8u8, k < 8u8;
}

proof fn lemma_byte_full_empty(k: u8)
    requires
        k < 8,
    ensures
        byte_bit(!0u8, k as int),
        !byte_bit(0u8, k as int),
{
    assert(((!0u8) >> k) & 1u8 == 1u8) by (bit_vector)
        requires k < 8u8;
    assert((0u8 >> k) & 1u8 == 0u8) by (bit_vector);
}

/// The bitmap of the nodes of a tree.
#[derive(Debug)]
pub struct TreeMap(Vec<u8>);

impl View for TreeMap {
    type V = Seq<bool>;

    /// Bit `i` of the map, for each `i` below `map_bits()`; `true` marks a used node.
    closed spec fn view(&self) -> Seq<bool> {
        Seq::new(map_bits(), |i: int| byte_bit(self.0@[i / 8], i % 8))
    }
}

impl TreeMap {
    /// The map holds its full number of bytes.
    pub closed spec fn wf(&self) -> bool {
        self.0@.len() == MAX_NODES
    }

    /// A well-formed map has one bit for each of the `map_bits()` nodes.
    pub proof fn lemma_view_len(&self)
        requires
            self.wf(),
        ensures
            self@.len() == map_bits(),
    {
    }

    /// Shows that changing byte `idx / 8` to `nb`, whose bit `idx % 8` is `v` and whose other
    /// bits are those of the old byte, changes exactly bit `idx` of the view.
    proof fn lemma_view_after_byte(old_bytes: Seq<u8>, new_bytes: Seq<u8>, idx: int, v: bool)
        requires
            old_bytes.len() == MAX_NODES,
            0 <= idx < map_bits(),
            new_bytes == old_bytes.update(idx / 8, new_bytes[idx / 8]),
            forall|k: int| 0 <= k < 8 ==> #[trigger] byte_bit(new_bytes[idx / 8], k) == if k == idx as int % 8 {
                v
            } else {
                byte_bit(old_bytes[idx as int / 8], k)
            },
        ensures
            Seq::new(map_bits(), |i: int| byte_bit(new_bytes[i / 8], i % 8)) =~= Seq::new(
                map_bits(),
                |i: int| byte_bit(old_bytes[i / 8], i % 8),
            ).update(idx, v),
    {
        assert forall|i: int| 0 <= i < map_bits() implies #[trigger] byte_bit(new_bytes[i / 8], i % 8)
            == (if i == idx { v } else { byte_bit(old_bytes[i / 8], i % 8) }) by {
            if i / 8 == idx / 8 {
                assert(i == idx <==> i % 8 == idx % 8);
            }
        }
    }

    /// A map with every bit clear.
    pub fn new() -> (r: Self)
        ensures
            r.wf(),
            r@ == Seq::new(map_bits(), |i: int| false),
    {
        let mut v: Vec<u8> = Vec::new();
        while v.len() < MAX_NODES
            invariant
                v.len() <= MAX_NODES,
                forall|k: int| 0 <= k < v.len() ==> v@[k] == 0u8,
            decreases MAX_NODES - v.len(),
        {
            v.push(0u8);
        }
        let r = TreeMap(v);
        proof {
            assert forall|i: int| 0 <= i < map_bits() implies !#[trigger] byte_bit(r.0@[i / 8], i % 8) by {
                lemma_byte_full_empty((i % 8) as u8);
            }
            assert(r@ =~= Seq::new(map_bits(), |i: int| false));
        }
        r
    }

    /// Whether bit `idx` is clear.
    pub fn is_empty(&self, idx: usize) -> (r: bool)
        requires
            self.wf(),
            idx < map_bits(),
        ensures
            r == !self@[idx as int],
    {
        let byte_index = idx / BITS_PER_BYTE;
        let bit_index = (idx % BITS_PER_BYTE) as u8;
        let b = self.0[byte_index];
        proof {
            assert((b & (1u8 << bit_index) == 0u8) <==> !((b >> bit_index) & 1u8 == 1u8))
                by (bit_vector)
                requires bit_index < 8u8;
        }
        (b & (1u8 << bit_index)) == 0
    }

    /// Sets bit `idx`.
    pub fn set_bit(&mut self, idx: usize)
        requires
            old(self).wf(),
            idx < map_bits(),
        ensures
            final(self).wf(),
            final(self)@ == old(self)@.update(idx as int, true),
    {
        let byte_index = idx / BITS_PER_BYTE;
        let bit_index = (idx % BITS_PER_BYTE) as u8;
        let ghost old_bytes = self.0@;
        let b = self.0[byte_index];
        self.0.set(byte_index, b | (1u8 << bit_index));
        proof {
            assert forall|k: int| 0 <= k < 8 implies #[trigger] byte_bit(self.0@[idx as int / 8], k) == if k
                == idx as int % 8 {
                true
            } else {
                byte_bit(old_bytes[idx as int / 8], k)
            } by {
                lemma_byte_set(b, bit_index, k as u8);
            }
            Self::lemma_view_after_byte(old_bytes, self.0@, idx as int, true);
        }
    }

    /// Clears bit `idx`.
    pub fn unset_bit(&mut self, idx: usize)
        requires
            old(self).wf(),
            idx < map_bits(),
        ensures
            final(self).wf(),
            final(self)@ == old(self)@.update(idx as int, false),
    {
        let byte_index = idx / BITS_PER_BYTE;
        let bit_index = (idx % BITS_PER_BYTE) as u8;
        let ghost old_bytes = self.0@;
        let b = self.0[byte_index];
        self.0.set(byte_index, b & !(1u8 << bit_index));
        proof {
            assert forall|k: int| 0 <= k < 8 implies #[trigger] byte_bit(self.0@[idx as int / 8], k) == if k
                == idx as int % 8 {
                false
            } else {
                byte_bit(old_bytes[idx as int / 8], k)
            } by {
                lemma_byte_unset(b, bit_index, k as u8);
            }
            Self::lemma_view_after_byte(old_bytes, self.0@, idx as int, false);
        }
    }

    /// Sets every bit.
    pub fn set_bit_all(&mut self)
        requires
            old(self).wf(),
        ensures
            final(self).wf(),
            final(self)@ == Seq::new(map_bits(), |i: int| true),
    {
        let mut i: usize = 0;
        while i < self.0.len()
            invariant
                self.wf(),
                self.0@.len() == MAX_NODES,
                i <= MAX_NODES,
                forall|k: int| 0 <= k < i ==> self.0@[k] == !0u8,
            decreases MAX_NODES - i,
        {
            self.0.set(i, !0u8);
            i = i + 1;
        }
        proof {
            assert forall|j: int| 0 <= j < map_bits() implies #[trigger] byte_bit(self.0@[j / 8], j % 8) by {
                lemma_byte_full_empty((j % 8) as u8);
            }
            assert(self@ =~= Seq::new(map_bits(), |i: int| true));
        }
    }

    /// Clears every bit.
    pub fn unset_bit_all(&mut self)
        requires
            old(self).wf(),
        ensures
            final(self).wf(),
            final(self)@ == Seq::new(map_bits(), |i: int| false),
    {
        let mut i: usize = 0;
        while i < self.0.len()
            invariant
                self.wf(),
                self.0@.len() == MAX_NODES,
                i <= MAX_NODES,
                forall|k: int| 0 <= k < i ==> self.0@[k] == 0u8,
            decreases MAX_NODES - i,
        {
            self.0.set(i, 0u8);
            i = i + 1;
        }
        proof {
            assert forall|j: int| 0 <= j < map_bits() implies !#[trigger] byte_bit(self.0@[j / 8], j % 8) by {
                lemma_byte_full_empty((j % 8) as u8);
            }
            assert(self@ =~= Seq::new(map_bits(), |i: int| false));
        }
    }

    /// Whether bit `idx` is set.
    pub fn get_bit(&self, idx: usize) -> (r: bool)
        requires
            self.wf(),
            idx < map_bits(),
        ensures
            r == self@[idx as int],
    {
        !self.is_empty(idx)
    }

    /// Whether the `count` bits from `idx` on all lie in the map and are all clear.
    pub fn mul_get_bit(&self, idx: usize, count: usize) -> (r: bool)
        requires
            self.wf(),
        ensures
            r == (idx + count <= map_bits() && forall|k: int| idx <= k < idx + count ==> !self@[k]),
    {
        if count > MAX_NODES * BITS_PER_BYTE || idx > MAX_NODES * BITS_PER_BYTE - count {
            return false;
        }
        let mut i: usize = 0;
        while i < count
            invariant
                self.wf(),
                idx + count <= map_bits(),
                i <= count,
                forall|k: int| idx <= k < idx + i ==> !self@[k],
            decreases count - i,
        {
            if !self.is_empty(idx + i) {
                return false;
            }
            i = i + 1;
        }
        true
    }
}

impl Default for TreeMap {
    fn default() -> (r: Self)
        ensures
            r.wf(),
            r@ == Seq::new(map_bits(), |i: int| false),
    {
        Self::new()
    }
}

/// Setting a clear bit and clearing it again gives back the map it started from; in between
/// the bit reads as set.
pub proof fn law_unset_after_set(m: TreeMap, set: TreeMap, unset: TreeMap, idx: int)
    requires
        m.wf(),
        0 <= idx < map_bits(),
        !m@[idx],
        set@ == m@.update(idx, true),
        unset@ == set@.update(idx, false),
    ensures
        set@[idx],
        unset@ == m@,
{
    assert(unset@ =~= m@);
}

} // verus!
