//! Size and alignment of a requested block of memory.

use vstd::prelude::*;
use crate::support::{align_up_spec, checked_align_up, is_pow2, is_power_of_two, lemma_align_up};

verus! {

/// Size and alignment of a block. The alignment is a power of two, and the
/// size rounded up to the alignment fits in an `isize`.
#[derive(Clone, Copy, Debug)]
pub struct Layout {
    size: usize,
    align: usize,
}

/// The parameters given to [`Layout::from_size_align`] do not describe a
/// layout.
#[derive(Clone, Copy, Debug, PartialEq, Eq)]
pub struct LayoutError;

/// `size` and `align` describe a layout.
pub open spec fn valid_layout(size: int, align: int) -> bool {
    &&& is_power_of_two(align)
    &&& align_up_spec(size, align) <= isize::MAX
}

impl Layout {
    #[verifier::type_invariant]
    spec fn inv(self) -> bool {
        valid_layout(self.size as int, self.align as int)
    }

    /// The size in bytes.
    pub closed spec fn spec_size(&self) -> usize {
        self.size
    }

    /// The alignment in bytes.
    pub closed spec fn spec_align(&self) -> usize {
        self.align
    }

    /// The layout of `size` bytes aligned to `align`, where those describe one.
    pub fn from_size_align(size: usize, align: usize) -> (r: Result<Layout, LayoutError>)
        ensures
            r is Ok <==> valid_layout(size as int, align as int),
            r matches Ok(l) ==> l.spec_size() == size && l.spec_align() == align,
    {
        if !is_pow2(align) {
            return Err(LayoutError);
        }
        proof {
            reveal_with_fuel(is_power_of_two, 1);
            lemma_align_up(size as int, align as int);
        }
        match checked_align_up(size, align) {
            Some(rounded) => {
                if rounded <= isize::MAX as usize {
                    Ok(Layout { size, align })
                } else {
                    Err(LayoutError)
                }
            },
            None => Err(LayoutError),
        }
    }

    /// The size in bytes.
    #[verifier::when_used_as_spec(spec_size)]
    pub fn size(&self) -> (r: usize)
        ensures
            r == self.spec_size(),
            valid_layout(self.spec_size() as int, self.spec_align() as int),
    {
        proof {
            use_type_invariant(self);
        }
        self.size
    }

    /// The alignment in bytes.
    #[verifier::when_used_as_spec(spec_align)]
    pub fn align(&self) -> (r: usize)
        ensures
            r == self.spec_align(),
            valid_layout(self.spec_size() as int, self.spec_align() as int),
    {
        proof {
            use_type_invariant(self);
        }
        self.align
    }
}

} // verus!
