//! The size and alignment of a requested block of memory.
use vstd::prelude::*;

use crate::bintree::index::{is_pow2, is_power_of_two};

verus! {

/// Whether a block of `size` bytes aligned to `align` can be described: `align` is a power
/// of two and `size`, rounded up to a multiple of `align`, does not exceed `isize::MAX`.
pub open spec fn valid_layout(size: nat, align: nat) -> bool {
    &&& is_pow2(align)
    &&& size + align - 1 <= isize::MAX
}

/// The size and alignment of a block of memory.
#[derive(Clone, Copy, Debug, PartialEq, Eq, Structural)]
pub struct Layout {
    size: usize,
    align: usize,
}

/// The error of `Layout::from_size_align`.
#[derive(Clone, Copy, Debug, PartialEq, Eq, Structural)]
pub struct LayoutError;

impl Layout {
    #[verifier::type_invariant]
    spec fn inv(self) -> bool {
        valid_layout(self.size as nat, self.align as nat)
    }

    /// The size in bytes.
    pub closed spec fn bytes(&self) -> nat {
        self.size as nat
    }

    /// The alignment in bytes.
    pub closed spec fn alignment(&self) -> nat {
        self.align as nat
    }

    /// A layout of `size` bytes aligned to `align`; fails unless `valid_layout(size, align)`.
    pub fn from_size_align(size: usize, align: usize) -> (r: Result<Layout, LayoutError>)
        ensures
            r is Ok <==> valid_layout(size as nat, align as nat),
            r matches Ok(l) ==> l.bytes() == size && l.alignment() == align,
    {
        if !is_power_of_two(align) {
            return Err(LayoutError);
        }
        if align - 1 > isize::MAX as usize || size > (isize::MAX as usize) - (align - 1) {
            return Err(LayoutError);
        }
        Ok(Layout { size, align })
    }

    /// The size in bytes.
    pub fn size(&self) -> (r: usize)
        ensures
            r == self.bytes(),
            valid_layout(self.bytes(), self.alignment()),
    {
        proof {
            use_type_invariant(self);
        }
        self.size
    }

    /// The alignment in bytes.
    pub fn align(&self) -> (r: usize)
        ensures
            r == self.alignment(),
            valid_layout(self.bytes(), self.alignment()),
    {
        proof {
            use_type_invariant(self);
        }
        self.align
    }
}

} // verus!
