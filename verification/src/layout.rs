//! Size and alignment of the memory a value needs, and the arithmetic that
//! moves an address up to the next aligned one.
use vstd::prelude::*;

verus! {

/// The number of bytes between `addr` and the first multiple of `align` that is
/// not below it.
pub open spec fn padding(addr: int, align: int) -> int {
    if addr % align == 0 {
        0
    } else {
        align - addr % align
    }
}

/// The padding leads to an aligned address, and no smaller step does.
pub proof fn padding_is_least(addr: int, align: int)
    requires
        align > 0,
    ensures
        0 <= padding(addr, align) < align,
        (addr + padding(addr, align)) % align == 0,
        forall|k: int| 0 <= k < padding(addr, align) ==> #[trigger] ((addr + k) % align) != 0,
{
    let r = addr % align;
    let q = addr / align;
    vstd::arithmetic::div_mod::lemma_fundamental_div_mod(addr, align);
    vstd::arithmetic::div_mod::lemma_mod_bound(addr, align);
    if r != 0 {
        assert(addr + padding(addr, align) == (q + 1) * align) by (nonlinear_arith)
            requires
                addr == align * q + r,
                padding(addr, align) == align - r,
        ;
        vstd::arithmetic::div_mod::lemma_mod_multiples_basic(q + 1, align);
        assert forall|k: int| 0 <= k < padding(addr, align) implies #[trigger] ((addr + k) % align)
            != 0 by {
            assert(addr + k == q * align + (r + k)) by (nonlinear_arith)
                requires
                    addr == align * q + r,
            ;
            vstd::arithmetic::div_mod::lemma_fundamental_div_mod_converse(
                addr + k,
                align,
                q,
                r + k,
            );
        }
    }
}

/// Bytes to skip from `addr` to reach a multiple of `align`.
pub fn align_offset(addr: usize, align: usize) -> (skip: usize)
    requires
        align > 0,
    ensures
        skip == padding(addr as int, align as int),
        skip < align,
        (addr + skip) % align as int == 0,
        forall|k: int| 0 <= k < skip ==> #[trigger] ((addr + k) % align as int) != 0,
{
    proof {
        padding_is_least(addr as int, align as int);
    }
    let past: usize = addr % align;
    if past == 0 {
        0
    } else {
        align - past
    }
}

/// Whether `n` is a power of two.
fn power_of_two(n: usize) -> (yes: bool)
    ensures
        yes == vstd::arithmetic::power2::is_pow2(n as int),
{
    if n == 0 {
        proof {
            reveal(vstd::arithmetic::power2::is_pow2);
        }
        return false;
    }
    let mut left: usize = n;
    while left % 2 == 0
        invariant
            left > 0,
            vstd::arithmetic::power2::is_pow2(n as int) == vstd::arithmetic::power2::is_pow2(left as int),
        decreases left,
    {
        proof {
            reveal(vstd::arithmetic::power2::is_pow2);
        }
        left = left / 2;
    }
    proof {
        reveal(vstd::arithmetic::power2::is_pow2);
    }
    left == 1
}

/// A layout's size and alignment together stay within an `isize`: there is room
/// for the value in a block of that many bytes, wherever the block starts.
pub proof fn size_and_padding_fit(layout: Layout)
    requires
        layout.wf(),
    ensures
        layout.size() + layout.align() - 1 <= isize::MAX,
{
    let align = layout.align() as int;
    let half = isize::MAX as int + 1;
    vstd::arithmetic::power2::is_pow2_equiv(align);
    vstd::arithmetic::power2::lemma2_to64();
    vstd::arithmetic::power2::lemma2_to64_rest();
    let top: nat = if usize::BITS == 64 {
        63
    } else {
        31
    };
    assert(half == vstd::arithmetic::power2::pow2(top));
    let e = choose|e: nat| vstd::arithmetic::power::pow(2, e) == align;
    vstd::arithmetic::power2::lemma_pow2(e);
    assert(e <= top) by {
        if e > top {
            if e > top + 1 {
                vstd::arithmetic::power2::lemma_pow2_strictly_increases(top + 1, e);
            }
            assert(align >= vstd::arithmetic::power2::pow2(top + 1));
        }
    }
    vstd::arithmetic::power2::lemma_pow2_adds(e, (top - e) as nat);
    let q = vstd::arithmetic::power2::pow2((top - e) as nat) as int;
    assert(isize::MAX as int == (q - 1) * align + (align - 1)) by (nonlinear_arith)
        requires
            isize::MAX as int + 1 == align * q,
    ;
    vstd::arithmetic::div_mod::lemma_fundamental_div_mod_converse(
        isize::MAX as int,
        align,
        q - 1,
        align - 1,
    );
}

/// The memory a value needs: how many bytes, and which addresses may hold it.
#[derive(Clone, Copy, Debug, PartialEq, Eq, Structural)]
pub struct Layout {
    size: usize,
    align: usize,
}

impl Layout {
    /// Number of bytes.
    pub closed spec fn spec_size(&self) -> usize {
        self.size
    }

    /// The address must be a multiple of this.
    pub closed spec fn spec_align(&self) -> usize {
        self.align
    }

    /// The alignment is a power of two, and the size still fits an `isize` when
    /// it is rounded up to the alignment.
    pub open spec fn wf(self) -> bool {
        &&& vstd::layout::valid_layout(self.spec_size(), self.spec_align())
        &&& self.spec_align() > 0
    }

    /// The layout of `T`.
    pub fn new<T>() -> (layout: Layout)
        ensures
            layout.wf(),
            layout.spec_size() == vstd::layout::size_of::<T>(),
            layout.spec_align() == vstd::layout::align_of::<T>(),
            layout.spec_size() % layout.spec_align() == 0,
    {
        vstd::layout::layout_for_type_is_valid::<T>();
        Layout { size: core::mem::size_of::<T>(), align: core::mem::align_of::<T>() }
    }

    /// The layout with this size and alignment, or `None` where the alignment
    /// is no power of two or the size, rounded up to the alignment, does not fit
    /// an `isize`.
    pub fn from_size_align(size: usize, align: usize) -> (layout: Option<Layout>)
        ensures
            layout is Some <==> vstd::arithmetic::power2::is_pow2(align as int) && vstd::layout::valid_layout(size, align),
            layout matches Some(l) ==> l.wf() && l.spec_size() == size && l.spec_align() == align,
    {
        if !power_of_two(align) {
            return None;
        }
        proof {
            reveal(vstd::arithmetic::power2::is_pow2);
        }
        let limit: usize = usize::MAX / 2;
        proof {
            vstd::arithmetic::div_mod::lemma_mod_decreases(limit as nat, align as nat);
        }
        if size > limit - limit % align {
            return None;
        }
        Some(Layout { size, align })
    }

    /// Number of bytes.
    #[verifier::when_used_as_spec(spec_size)]
    pub fn size(&self) -> (size: usize)
        ensures
            size == self.spec_size(),
    {
        self.size
    }

    /// The address must be a multiple of this.
    #[verifier::when_used_as_spec(spec_align)]
    pub fn align(&self) -> (align: usize)
        ensures
            align == self.spec_align(),
    {
        self.align
    }
}

} // verus!
