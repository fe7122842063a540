//! What a request for memory asks for: a size and an alignment.

use vstd::prelude::*;
use vstd::arithmetic::div_mod::lemma_fundamental_div_mod_converse;
use vstd::arithmetic::power2::{lemma_pow2_adds, lemma_pow2_strictly_increases, pow2};
use vstd::layout::{signed_int_min_max_values, unsigned_int_max_values};
use crate::allocator::{
    align_up, align_up_spec, is_power_of_two, lemma_align_up_below_multiple, lemma_align_up_spec,
    lemma_power_of_two_exponent,
};

verus! {

/// The size and the alignment of a block of memory, both in bytes.
///
/// A layout is valid, `wf`, when its alignment is a power of two and its
/// size, rounded up to that alignment, does not exceed `isize::MAX`. Every
/// layout that this module hands out is valid.
#[derive(Clone, Copy, Debug, PartialEq, Eq, Structural)]
pub struct Layout {
    size: usize,
    align: usize,
}

/// Why a layout could not be made: the alignment is no power of two, or the
/// padded size does not fit.
#[derive(Clone, Copy, Debug, PartialEq, Eq, Structural)]
pub struct LayoutError;

/// Whether `size` and `align` make a valid layout.
pub open spec fn valid_size_align(size: usize, align: usize) -> bool {
    is_power_of_two(align) && align_up_spec(size as int, align as int) <= isize::MAX
}

/// Half the address space is a multiple of every power of two up to it.
proof fn lemma_power_of_two_divides_half(align: usize)
    requires
        is_power_of_two(align),
    ensures
        align <= isize::MAX + 1,
        (isize::MAX + 1) % (align as int) == 0,
{
    let k = lemma_power_of_two_exponent(align);
    unsigned_int_max_values();
    signed_int_min_max_values();
    let bits = (usize::BITS - 1) as nat;
    lemma_pow2_adds(bits, 1);
    vstd::arithmetic::power2::lemma2_to64();
    if k > bits + 1 {
        lemma_pow2_strictly_increases(bits + 1, k);
    }
    assert(k <= bits);
    let rest = (bits - k) as nat;
    lemma_pow2_adds(rest, k);
    assert(rest + k == bits);
    assert(isize::MAX + 1 == pow2(rest) * align + 0);
    lemma_fundamental_div_mod_converse(isize::MAX + 1, align as int, pow2(rest) as int, 0);
    if k < bits {
        lemma_pow2_strictly_increases(k, bits);
    }
}

/// The padded size fits exactly when the size leaves `align - 1` bytes of
/// room below `isize::MAX`.
pub proof fn lemma_valid_size_align(size: usize, align: usize)
    requires
        is_power_of_two(align),
    ensures
        align <= isize::MAX + 1,
        valid_size_align(size, align) <==> size <= isize::MAX - (align - 1),
{
    lemma_power_of_two_divides_half(align);
    lemma_align_up_below_multiple(size as int, align as int, isize::MAX + 1);
}

impl Layout {
    /// The requested size in bytes.
    pub closed spec fn spec_size(&self) -> usize {
        self.size
    }

    /// The requested alignment in bytes.
    pub closed spec fn spec_align(&self) -> usize {
        self.align
    }

    /// Whether the layout is valid.
    pub open spec fn wf(&self) -> bool {
        valid_size_align(self.size(), self.align())
    }

    /// The layout with the given size and alignment.
    pub closed spec fn of(size: usize, align: usize) -> Layout {
        Layout { size, align }
    }

    /// The size rounded up to the alignment.
    pub open spec fn padded_size(&self) -> int {
        align_up_spec(self.size() as int, self.align() as int)
    }

    /// What `align_to` yields.
    pub open spec fn align_to_spec(&self, align: usize) -> Result<Layout, LayoutError> {
        let wider = if self.align() >= align {
            self.align()
        } else {
            align
        };
        if valid_size_align(self.size(), wider) {
            Ok(Layout::of(self.size(), wider))
        } else {
            Err(LayoutError)
        }
    }

    /// What `pad_to_align` yields.
    pub open spec fn pad_to_align_spec(&self) -> Layout {
        Layout::of(self.padded_size() as usize, self.align())
    }

    /// `Layout::of` builds the layout with the fields it is given, and two
    /// layouts with the same fields are one.
    pub broadcast proof fn lemma_of(size: usize, align: usize)
        ensures
            (#[trigger] Layout::of(size, align)).size() == size,
            Layout::of(size, align).align() == align,
    {
    }

    /// A layout of the given size and alignment, or an error if the two
    /// make no valid layout.
    pub fn from_size_align(size: usize, align: usize) -> (made: Result<Layout, LayoutError>)
        ensures
            made == (if valid_size_align(size, align) {
                Ok::<Layout, LayoutError>(Layout::of(size, align))
            } else {
                Err(LayoutError)
            }),
    {
        if align == 0 || align & (align - 1) != 0 {
            return Err(LayoutError);
        }
        proof {
            lemma_valid_size_align(size, align);
        }
        if size > (isize::MAX as usize) - (align - 1) {
            return Err(LayoutError);
        }
        Ok(Layout { size, align })
    }

    /// The requested size in bytes.
    #[verifier::when_used_as_spec(spec_size)]
    pub fn size(&self) -> (size: usize)
        ensures
            size == self.size(),
    {
        self.size
    }

    /// The requested alignment in bytes.
    #[verifier::when_used_as_spec(spec_align)]
    pub fn align(&self) -> (align: usize)
        ensures
            align == self.align(),
    {
        self.align
    }

    /// A layout of the same size whose alignment is at least `align`, or an
    /// error if the size does not fit once padded to it.
    pub fn align_to(&self, align: usize) -> (widened: Result<Layout, LayoutError>)
        requires
            self.wf(),
            is_power_of_two(align),
        ensures
            widened == self.align_to_spec(align),
            widened matches Ok(l) ==> l.wf(),
    {
        let wider = if self.align >= align {
            self.align
        } else {
            align
        };
        Layout::from_size_align(self.size, wider)
    }

    /// The layout with its size rounded up to a multiple of its alignment.
    pub fn pad_to_align(&self) -> (padded: Layout)
        requires
            self.wf(),
        ensures
            padded == self.pad_to_align_spec(),
            padded.wf(),
    {
        proof {
            lemma_valid_size_align(self.size, self.align);
            lemma_align_up_spec(self.size as int, self.align as int);
        }
        let size = align_up(self.size, self.align);
        proof {
            lemma_align_up_spec(size as int, self.align as int);
        }
        Layout { size, align: self.align }
    }
}

} // verus!
