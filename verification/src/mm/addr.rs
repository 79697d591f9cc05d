//! Page-aligned addresses, sizes and ranges.
use core::ops::Range;
use vstd::prelude::*;

verus! {

/// Page size in bytes: the granularity at which guest memory is mapped, unmapped and re-protected.
pub const PAGE_SIZE: usize = 4096;

/// Room left after a mapping that asked to be able to grow.
pub const DEFAULT_RESERVED_SPACE_SIZE: usize = 0x100_0000;

/// `value` is a multiple of `align`; of zero, only zero is.
pub open spec fn multiple_of(value: int, align: int) -> bool {
    if align == 0 {
        value == 0
    } else {
        value % align == 0
    }
}

/// The start of the page that holds an address.
pub open spec fn page_of(address: int, align: int) -> int {
    address - address % align
}

/// The page of an address is aligned, at or below it and less than a page away; within aligned
/// bounds an address lies exactly where its page lies.
pub proof fn lemma_page_of(address: int, align: int)
    requires
        align > 0,
    ensures
        page_of(address, align) % align == 0,
        page_of(address, align) <= address < page_of(address, align) + align,
        page_of(page_of(address, align), align) == page_of(address, align),
        forall|s: int| #[trigger] (s % align) == 0 ==> (s <= address <==> s <= page_of(address, align)),
{
    let p = page_of(address, align);
    vstd::arithmetic::div_mod::lemma_fundamental_div_mod(address, align);
    vstd::arithmetic::div_mod::lemma_mod_division_less_than_divisor(address, align);
    assert(p == align * (address / align));
    vstd::arithmetic::div_mod::lemma_mod_multiples_basic(address / align, align);
    assert(align * (address / align) == (address / align) * align) by (nonlinear_arith);
    assert forall|s: int| #[trigger] (s % align) == 0 implies (s <= address <==> s <= p) by {
        vstd::arithmetic::div_mod::lemma_fundamental_div_mod(s, align);
        let q = s / align;
        let a = address / align;
        assert(s == align * q);
        if s <= address && s > p {
            assert(align * q > align * a && align * q < align * a + align ==> false) by (nonlinear_arith)
                requires
                    align > 0,
            ;
        }
    }
}

/// Sums and differences of aligned values are aligned.
pub proof fn lemma_aligned_sum(a: int, b: int, align: int)
    requires
        align > 0,
        a % align == 0,
        b % align == 0,
    ensures
        (a + b) % align == 0,
        (a - b) % align == 0,
{
    vstd::arithmetic::div_mod::lemma_fundamental_div_mod(a, align);
    vstd::arithmetic::div_mod::lemma_fundamental_div_mod(b, align);
    let x = a / align;
    let y = b / align;
    assert(align * x + align * y == (x + y) * align && align * x - align * y == (x - y) * align)
        by (nonlinear_arith);
    vstd::arithmetic::div_mod::lemma_mod_multiples_basic(x + y, align);
    vstd::arithmetic::div_mod::lemma_mod_multiples_basic(x - y, align);
}

/// Whether `value` is a multiple of `align`.
pub fn is_multiple_of(value: usize, align: usize) -> (yes: bool)
    ensures
        yes == multiple_of(value as int, align as int),
{
    if align == 0 {
        value == 0
    } else {
        value % align == 0
    }
}

/// A non-empty range of page-aligned addresses
#[derive(Clone, Copy)]
pub struct PageRange<const ALIGN: usize> {
    /// Start page of the range.
    pub start: usize,
    /// End page of the range.
    pub end: usize,
}

impl<const ALIGN: usize> PageRange<ALIGN> {
    /// Aligned and not empty.
    pub open spec fn wf(&self) -> bool {
        &&& self.start < self.end
        &&& multiple_of(self.start as int, ALIGN as int)
        &&& multiple_of(self.end as int, ALIGN as int)
    }

    /// Create a new [`PageRange`].
    ///
    /// Returns `None` if the range is not `ALIGN`-aligned or empty.
    pub fn new(start: usize, end: usize) -> (range: Option<Self>)
        ensures
            range is Some <==> (PageRange::<ALIGN> { start, end }).wf(),
            range matches Some(r) ==> r.start == start && r.end == end,
    {
        if !is_multiple_of(start, ALIGN) || !is_multiple_of(end, ALIGN) {
            return None;
        }
        if start >= end {
            return None;
        }
        Some(PageRange { start, end })
    }

    /// Get the size of this `ALIGN`-aligned range
    pub fn len(&self) -> (size: usize)
        requires
            self.start <= self.end,
        ensures
            size == self.end - self.start,
    {
        self.end - self.start
    }

    /// Whether the range is empty or not
    ///
    /// Note this range is never empty.
    pub fn is_empty(&self) -> (empty: bool)
        ensures
            !empty,
    {
        false
    }

    /// Get the start address and length of this range as a tuple. The start must not be zero.
    pub fn start_and_length(&self) -> (pair: (NonZeroAddress<ALIGN>, NonZeroPageSize<ALIGN>))
        requires
            self.wf(),
            self.start != 0,
        ensures
            pair.0.wf(),
            pair.1.wf(),
            pair.0.address() == self.start,
            pair.1.size() == self.end - self.start,
    {
        proof {
            if ALIGN > 0 {
                lemma_aligned_sum(self.end as int, self.start as int, ALIGN as int);
            }
        }
        (NonZeroAddress { address: self.start }, NonZeroPageSize { size: self.end - self.start })
    }

    /// The plain range of the same extent.
    pub fn to_range(self) -> (range: Range<usize>)
        ensures
            range.start == self.start,
            range.end == self.end,
    {
        self.start..self.end
    }

    /// The start of every page of the range, in address order.
    pub fn pages(self) -> (pages: Vec<usize>)
        requires
            self.wf(),
        ensures
            pages.len() * ALIGN == self.end - self.start,
            forall|i: int| 0 <= i < pages.len() ==> #[trigger] pages@[i] == self.start + i * ALIGN,
    {
        let mut pages: Vec<usize> = Vec::new();
        let mut left: usize = self.end - self.start;
        proof {
            assert(ALIGN > 0);
            lemma_aligned_sum(self.end as int, self.start as int, ALIGN as int);
            assert(0 * ALIGN as int == 0) by (nonlinear_arith);
        }
        while left > 0
            invariant
                ALIGN > 0,
                self.start <= self.end,
                left % ALIGN == 0,
                pages.len() * ALIGN + left == self.end - self.start,
                forall|i: int| 0 <= i < pages.len() ==> #[trigger] pages@[i] == self.start + i * ALIGN,
            decreases left,
        {
            proof {
                vstd::arithmetic::div_mod::lemma_fundamental_div_mod(left as int, ALIGN as int);
                let q = left as int / ALIGN as int;
                assert(left >= ALIGN) by (nonlinear_arith)
                    requires
                        left == ALIGN * q,
                        left > 0,
                        ALIGN > 0,
                ;
                lemma_aligned_sum(left as int, ALIGN as int, ALIGN as int);
                assert((pages.len() + 1) * ALIGN == pages.len() * ALIGN + ALIGN) by (nonlinear_arith);
            }
            pages.push(self.end - left);
            left = left - ALIGN;
        }
        pages
    }
}

/// A non-zero `ALIGN`-aligned size in bytes.
#[derive(Clone, Copy)]
pub struct NonZeroPageSize<const ALIGN: usize> {
    size: usize,
}

impl<const ALIGN: usize> NonZeroPageSize<ALIGN> {
    /// The size in bytes.
    pub closed spec fn size(&self) -> int {
        self.size as int
    }

    /// Not zero and aligned.
    pub open spec fn wf(&self) -> bool {
        0 < self.size() <= usize::MAX && multiple_of(self.size(), ALIGN as int)
    }

    /// Create a new non-zero `ALIGN`-aligned size.
    ///
    /// Returns `None` if the size is zero or not `ALIGN`-aligned.
    pub fn new(size: usize) -> (value: Option<Self>)
        ensures
            value is Some <==> size != 0 && multiple_of(size as int, ALIGN as int),
            value matches Some(v) ==> v.size() == size && v.wf(),
    {
        if size == 0 || !is_multiple_of(size, ALIGN) {
            return None;
        }
        Some(NonZeroPageSize { size })
    }

    /// Get the size
    pub fn as_usize(self) -> (size: usize)
        ensures
            size == self.size(),
    {
        self.size
    }

    /// The size enlarged by `more` bytes; `None` if that is not aligned.
    pub fn plus(self, more: usize) -> (value: Option<Self>)
        requires
            0 < self.size() + more <= usize::MAX,
        ensures
            value is Some <==> multiple_of(self.size() + more, ALIGN as int),
            value matches Some(v) ==> v.size() == self.size() + more && v.wf(),
    {
        NonZeroPageSize::new(self.size + more)
    }
}

/// A non-zero address that is `ALIGN`-aligned.
#[derive(Clone, Copy)]
pub struct NonZeroAddress<const ALIGN: usize> {
    address: usize,
}

impl<const ALIGN: usize> NonZeroAddress<ALIGN> {
    /// The address.
    pub closed spec fn address(&self) -> int {
        self.address as int
    }

    /// Not zero and aligned.
    pub open spec fn wf(&self) -> bool {
        0 < self.address() <= usize::MAX && multiple_of(self.address(), ALIGN as int)
    }

    /// Create a new `NonZeroAddress`, if the address is non-zero and aligned.
    pub fn new(address: usize) -> (value: Option<Self>)
        ensures
            value is Some <==> address != 0 && multiple_of(address as int, ALIGN as int),
            value matches Some(v) ==> v.address() == address && v.wf(),
    {
        if address == 0 || !is_multiple_of(address, ALIGN) {
            return None;
        }
        Some(NonZeroAddress { address })
    }

    /// Get the address
    pub fn as_usize(self) -> (address: usize)
        ensures
            address == self.address(),
    {
        self.address
    }
}

} // verus!
