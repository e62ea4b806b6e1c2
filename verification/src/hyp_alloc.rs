//! The allocator that hands out the frames of the machine's memory at boot.

use crate::page::{
    is_aligned, lemma_aligned_add_multiple, lemma_size_4k, AlignedPageAddr4k, PageAddr, PageSize4k,
    PhysAddr, PAGE_SIZE_4K,
};
use crate::sequential_pages::{SeqPageIter, SequentialPages};
use vstd::prelude::*;

verus! {

/// A range of consecutive 4 KiB frames that hands them out from the lowest
/// address up.
pub type PageRange = SeqPageIter<PageSize4k>;

/// The addresses of the `count` 4 KiB frames from `start` on.
pub open spec fn frames_from(start: u64, count: nat) -> Seq<u64> {
    Seq::new(count, |i: int| (start + i * PAGE_SIZE_4K) as u64)
}

/// The number of 4 KiB frames between `addr` and the next address at or above
/// it that is a multiple of `align`.
pub open spec fn frames_to_aligned(addr: u64, align: u64) -> u64 {
    if addr as int % align as int == 0 {
        0
    } else {
        ((align - addr as int % align as int) / PAGE_SIZE_4K as int) as u64
    }
}

/// Hands out the frames of one region of memory, each of them once, from the
/// lowest address up. Every frame that it hands out is owned by the
/// hypervisor alone.
#[derive(Debug)]
pub struct HypPageAlloc {
    base: u64,
    num_pages: u64,
    taken: u64,
}

impl HypPageAlloc {
    #[verifier::type_invariant]
    spec fn inv(self) -> bool {
        &&& is_aligned(self.base as int, PAGE_SIZE_4K as int)
        &&& self.base + self.num_pages * PAGE_SIZE_4K <= u64::MAX
        &&& self.taken <= self.num_pages
    }

    /// The address of the first frame of the region, in specifications.
    pub closed spec fn spec_base(&self) -> u64 {
        self.base
    }

    /// The number of frames of the region, in specifications.
    pub closed spec fn spec_num_pages(&self) -> u64 {
        self.num_pages
    }

    /// The number of frames that were handed out or passed over, in
    /// specifications.
    pub closed spec fn spec_taken(&self) -> u64 {
        self.taken
    }

    /// The number of frames that are left, in specifications.
    pub open spec fn spec_free_pages(&self) -> u64 {
        (self.spec_num_pages() - self.spec_taken()) as u64
    }

    /// The address of the lowest frame that is left.
    pub open spec fn next_addr(&self) -> u64 {
        (self.spec_base() + self.spec_taken() * PAGE_SIZE_4K) as u64
    }

    /// The number of frames that are passed over to reach a frame aligned to
    /// `align`.
    pub open spec fn spec_pages_to_skip(&self, align: u64) -> u64 {
        frames_to_aligned(self.next_addr(), align)
    }

    /// Whether `count` frames can be handed out from a frame aligned to
    /// `align` on.
    pub open spec fn spec_can_take(&self, count: u64, align: u64) -> bool {
        &&& align > 0
        &&& is_aligned(align as int, PAGE_SIZE_4K as int)
        &&& self.spec_pages_to_skip(align) + count <= self.spec_free_pages()
    }

    /// The invariant of the allocator.
    pub open spec fn wf(&self) -> bool {
        &&& is_aligned(self.spec_base() as int, PAGE_SIZE_4K as int)
        &&& self.spec_base() + self.spec_num_pages() * PAGE_SIZE_4K <= u64::MAX
        &&& self.spec_taken() <= self.spec_num_pages()
    }

    /// An allocator for the `num_pages` frames from `base` on. `None` if the
    /// region does not lie below the top of the 64-bit address space.
    pub fn new(base: AlignedPageAddr4k, num_pages: u64) -> (r: Option<Self>)
        ensures
            r is Some <==> base@ + num_pages * PAGE_SIZE_4K <= u64::MAX,
            r matches Some(a) ==> {
                &&& a.spec_base() == base@
                &&& a.spec_num_pages() == num_pages
                &&& a.spec_taken() == 0
                &&& a.wf()
            },
    {
        proof {
            lemma_size_4k();
        }
        if base.checked_add_pages(num_pages).is_none() {
            return None;
        }
        Some(HypPageAlloc { base: base.bits(), num_pages, taken: 0 })
    }

    /// The address of the first frame of the region.
    #[verifier::when_used_as_spec(spec_base)]
    pub fn base(&self) -> (r: u64)
        ensures
            r == self.spec_base(),
            self.wf(),
    {
        proof {
            use_type_invariant(self);
        }
        self.base
    }

    /// The number of frames of the region.
    #[verifier::when_used_as_spec(spec_num_pages)]
    pub fn num_pages(&self) -> (r: u64)
        ensures
            r == self.spec_num_pages(),
            self.wf(),
    {
        proof {
            use_type_invariant(self);
        }
        self.num_pages
    }

    /// The number of frames that are left.
    #[verifier::when_used_as_spec(spec_free_pages)]
    pub fn free_pages(&self) -> (r: u64)
        ensures
            r == self.spec_free_pages(),
            self.wf(),
    {
        proof {
            use_type_invariant(self);
        }
        self.num_pages - self.taken
    }

    /// The number of frames that are passed over to reach a frame aligned to
    /// `align`, a positive multiple of 4 KiB.
    #[verifier::when_used_as_spec(spec_pages_to_skip)]
    pub fn pages_to_skip(&self, align: u64) -> (r: u64)
        requires
            align > 0,
            is_aligned(align as int, PAGE_SIZE_4K as int),
        ensures
            r == self.spec_pages_to_skip(align),
            r * PAGE_SIZE_4K < align,
            is_aligned(self.next_addr() + r * PAGE_SIZE_4K, align as int),
    {
        proof {
            use_type_invariant(self);
            assert(self.taken * PAGE_SIZE_4K <= self.num_pages * PAGE_SIZE_4K) by (nonlinear_arith)
                requires
                    self.taken <= self.num_pages,
            ;
            lemma_aligned_add_multiple(self.base as int, self.taken as int, PAGE_SIZE_4K as int);
        }
        let addr = self.base + self.taken * PAGE_SIZE_4K;
        let rem = addr % align;
        if rem == 0 {
            0
        } else {
            proof {
                lemma_gap_is_pages(addr, align);
            }
            (align - rem) / PAGE_SIZE_4K
        }
    }

    /// Whether `count` frames can be handed out from a frame aligned to
    /// `align` on.
    #[verifier::when_used_as_spec(spec_can_take)]
    pub fn can_take(&self, count: u64, align: u64) -> (r: bool)
        ensures
            r == self.spec_can_take(count, align),
    {
        proof {
            use_type_invariant(self);
        }
        if align == 0 || align % PAGE_SIZE_4K != 0 {
            return false;
        }
        let skip = self.pages_to_skip(align);
        let free = self.num_pages - self.taken;
        skip <= free && count <= free - skip
    }

    /// Hands out the next `count` frames.
    pub fn take_pages(&mut self, count: usize) -> (r: PageRange)
        requires
            count <= old(self).spec_free_pages(),
        ensures
            r@ == frames_from(old(self).next_addr(), count as nat),
            final(self).spec_base() == old(self).spec_base(),
            final(self).spec_num_pages() == old(self).spec_num_pages(),
            final(self).spec_taken() == old(self).spec_taken() + count,
            final(self).wf(),
    {
        proof {
            use_type_invariant(&*self);
        }
        let first = self.taken;
        let range = range_at(self.base, self.num_pages, first, count as u64);
        self.taken = first + count as u64;
        range
    }

    /// Passes over the frames below the next one that is aligned to `align`
    /// and hands out `count` frames from there.
    pub fn take_pages_with_alignment(&mut self, count: usize, align: u64) -> (r: PageRange)
        requires
            old(self).spec_can_take(count as u64, align),
        ensures
            r@ == frames_from(
                (old(self).next_addr() + old(self).spec_pages_to_skip(align) * PAGE_SIZE_4K) as u64,
                count as nat,
            ),
            is_aligned(
                old(self).next_addr() + old(self).spec_pages_to_skip(align) * PAGE_SIZE_4K,
                align as int,
            ),
            final(self).spec_base() == old(self).spec_base(),
            final(self).spec_num_pages() == old(self).spec_num_pages(),
            final(self).spec_taken() == old(self).spec_taken() + old(self).spec_pages_to_skip(align)
                + count,
            final(self).wf(),
    {
        proof {
            use_type_invariant(&*self);
        }
        let skip = self.pages_to_skip(align);
        let first = self.taken + skip;
        proof {
            assert(self.base + self.taken * PAGE_SIZE_4K + skip * PAGE_SIZE_4K == self.base + first
                * PAGE_SIZE_4K) by (nonlinear_arith)
                requires
                    first == self.taken + skip,
            ;
            assert(self.taken * PAGE_SIZE_4K <= self.num_pages * PAGE_SIZE_4K) by (nonlinear_arith)
                requires
                    self.taken <= self.num_pages,
            ;
        }
        let range = range_at(self.base, self.num_pages, first, count as u64);
        self.taken = first + count as u64;
        range
    }

    /// Hands out all the frames that are left from the next one on that is
    /// aligned to `align`: one range, or none if no such frame is left.
    pub fn take_rest(&mut self, align: u64) -> (r: Vec<PageRange>)
        requires
            align > 0,
            is_aligned(align as int, PAGE_SIZE_4K as int),
        ensures
            old(self).spec_pages_to_skip(align) >= old(self).spec_free_pages() ==> r@.len() == 0,
            old(self).spec_pages_to_skip(align) < old(self).spec_free_pages() ==> {
                &&& r@.len() == 1
                &&& r@[0]@ == frames_from(
                    (old(self).next_addr() + old(self).spec_pages_to_skip(align)
                        * PAGE_SIZE_4K) as u64,
                    (old(self).spec_free_pages() - old(self).spec_pages_to_skip(align)) as nat,
                )
            },
            is_aligned(
                old(self).next_addr() + old(self).spec_pages_to_skip(align) * PAGE_SIZE_4K,
                align as int,
            ),
            final(self).spec_base() == old(self).spec_base(),
            final(self).spec_num_pages() == old(self).spec_num_pages(),
            final(self).spec_taken() == old(self).spec_num_pages(),
            final(self).wf(),
    {
        proof {
            use_type_invariant(&*self);
        }
        let skip = self.pages_to_skip(align);
        let free = self.num_pages - self.taken;
        let mut ranges: Vec<PageRange> = Vec::new();
        if skip < free {
            let first = self.taken + skip;
            proof {
                assert(self.base + self.taken * PAGE_SIZE_4K + skip * PAGE_SIZE_4K == self.base
                    + first * PAGE_SIZE_4K) by (nonlinear_arith)
                    requires
                        first == self.taken + skip,
                ;
                assert(self.taken * PAGE_SIZE_4K <= self.num_pages * PAGE_SIZE_4K)
                    by (nonlinear_arith)
                    requires
                        self.taken <= self.num_pages,
                ;
            }
            let range = range_at(self.base, self.num_pages, first, free - skip);
            ranges.push(range);
        }
        self.taken = self.num_pages;
        ranges
    }
}

/// The gap between an address that is a multiple of 4 KiB, but not of
/// `align`, and the next multiple of `align` is a whole number of frames.
proof fn lemma_gap_is_pages(addr: u64, align: u64)
    requires
        align > 0,
        is_aligned(addr as int, PAGE_SIZE_4K as int),
        is_aligned(align as int, PAGE_SIZE_4K as int),
        addr % align != 0,
    ensures
        frames_to_aligned(addr, align) * PAGE_SIZE_4K == align - addr % align,
        frames_to_aligned(addr, align) == (align - addr % align) / (PAGE_SIZE_4K as int),
        0 < align - addr % align < align,
        is_aligned(addr + (align - addr % align), align as int),
{
    let addr = addr as int;
    let align = align as int;
    let rem = addr % align;
    let q = addr / align;
    vstd::arithmetic::div_mod::lemma_fundamental_div_mod(addr, align);
    vstd::arithmetic::div_mod::lemma_mod_pos_bound(addr, align);
    assert(addr == align * q + rem);
    let a4 = align / 4096;
    assert(align == a4 * 4096);
    assert(align * q == (a4 * q) * 4096) by (nonlinear_arith)
        requires
            align == a4 * 4096,
    ;
    let d4 = addr / 4096;
    assert(addr == d4 * 4096);
    let gap = align - rem;
    let g4 = a4 - (d4 - a4 * q);
    assert(gap == g4 * 4096) by (nonlinear_arith)
        requires
            g4 == a4 - (d4 - a4 * q),
            gap == align - rem,
            align == a4 * 4096,
            addr == align * q + rem,
            align * q == (a4 * q) * 4096,
            addr == d4 * 4096,
    ;
    assert(gap / 4096 == g4 && gap % 4096 == 0);
    assert(addr + gap == (q + 1) * align) by (nonlinear_arith)
        requires
            addr == align * q + rem,
            gap == align - rem,
    ;
    assert((addr + gap) % align == 0) by {
        vstd::arithmetic::div_mod::lemma_mod_multiples_basic(q + 1, align);
    }
}

/// The range of the `count` frames from the `first`-th on of the region of
/// `num_pages` frames from `base` on.
fn range_at(base: u64, num_pages: u64, first: u64, count: u64) -> (r: PageRange)
    requires
        is_aligned(base as int, PAGE_SIZE_4K as int),
        base + num_pages * PAGE_SIZE_4K <= u64::MAX,
        first + count <= num_pages,
    ensures
        r@ == frames_from((base + first * PAGE_SIZE_4K) as u64, count as nat),
{
    proof {
        lemma_size_4k();
        assert(first * PAGE_SIZE_4K + count * PAGE_SIZE_4K <= num_pages * PAGE_SIZE_4K)
            by (nonlinear_arith)
            requires
                first + count <= num_pages,
        ;
        lemma_aligned_add_multiple(base as int, first as int, PAGE_SIZE_4K as int);
    }
    let start = base + first * PAGE_SIZE_4K;
    match PageAddr::<PageSize4k>::new(PhysAddr::new(start)) {
        Some(addr) => {
            let pages = SequentialPages::from_mem_range(addr, count);
            broadcast use SequentialPages::lemma_spec_new;

            assert(pages@ =~= frames_from(start, count as nat));
            pages.into_iter()
        },
        None => SequentialPages::empty().into_iter(),
    }
}

} // verus!
