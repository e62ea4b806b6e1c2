//! Ranges of consecutive frames of one size, held through a single handle.

use crate::page::{is_aligned, page_addrs, Page, PageAddr, PageSize, PhysAddr};
use core::marker::PhantomData;
use vstd::prelude::*;

verus! {

/// `count` consecutive frames of size `S`, the first one at `addr`: a
/// contiguous area of memory, owned as a whole.
///
/// The view is the sequence of the frames' raw addresses, in ascending order.
#[derive(Debug)]
pub struct SequentialPages<S: PageSize> {
    addr: u64,
    count: u64,
    phantom: PhantomData<S>,
}

impl<S: PageSize> View for SequentialPages<S> {
    type V = Seq<u64>;

    open spec fn view(&self) -> Seq<u64> {
        Seq::new(
            self.spec_count() as nat,
            |i: int| (self.spec_base() + i * S::SIZE_BYTES) as u64,
        )
    }
}

impl<S: PageSize> SequentialPages<S> {
    #[verifier::type_invariant]
    spec fn inv(self) -> bool {
        self.wf()
    }

    /// The address of the first frame, in specifications.
    pub closed spec fn spec_base(&self) -> u64 {
        self.addr
    }

    /// The number of frames, in specifications.
    pub closed spec fn spec_count(&self) -> u64 {
        self.count
    }

    /// The range of `count` frames that starts at `base`.
    pub closed spec fn spec_new(base: u64, count: u64) -> Self {
        SequentialPages { addr: base, count, phantom: PhantomData }
    }

    /// A range is determined by its base and its count.
    pub broadcast proof fn lemma_spec_new(base: u64, count: u64)
        ensures
            #![trigger Self::spec_new(base, count)]
            Self::spec_new(base, count).spec_base() == base,
            Self::spec_new(base, count).spec_count() == count,
    {
    }

    /// Two ranges with the same base and count are the same range.
    pub proof fn lemma_determined(self, other: Self)
        requires
            self.spec_base() == other.spec_base(),
            self.spec_count() == other.spec_count(),
        ensures
            self == other,
    {
    }

    /// Whether `count` frames from `base` on lie within the 64-bit address
    /// space, with a length in bytes that fits in 64 bits.
    pub open spec fn range_fits(base: u64, count: u64) -> bool {
        &&& count * S::SIZE_BYTES <= u64::MAX
        &&& count > 0 ==> base + (count - 1) * S::SIZE_BYTES <= u64::MAX
    }

    /// Validity of a range: the base is aligned to the frame size, and the
    /// range fits.
    pub open spec fn wf(&self) -> bool {
        &&& is_aligned(self.spec_base() as int, S::SIZE_BYTES as int)
        &&& Self::range_fits(self.spec_base(), self.spec_count())
    }

    /// Whether each handle of `pages` but the first lies exactly one frame
    /// above the one before it.
    pub open spec fn consecutive(pages: Seq<Page<S>>) -> bool {
        forall|i: int|
            0 < i < pages.len() ==> (#[trigger] pages[i])@ == pages[i - 1]@ + S::SIZE_BYTES
    }

    /// The sequences of handles that form a range: non-empty, consecutive,
    /// and of a length in bytes that fits in 64 bits.
    pub open spec fn accepts(pages: Seq<Page<S>>) -> bool {
        &&& pages.len() > 0
        &&& Self::consecutive(pages)
        &&& pages.len() * S::SIZE_BYTES <= u64::MAX
    }

    /// The handles of the frames of the range, in ascending order.
    pub open spec fn spec_pages(&self) -> Seq<Page<S>> {
        self@.map_values(|a: u64| Page::<S>::at(PageAddr::<S>::from_bits(a)))
    }

    /// The range with no frames.
    pub fn empty() -> (r: Self)
        ensures
            r == Self::spec_new(0, 0),
            r@ == Seq::<u64>::empty(),
            r.wf(),
    {
        proof {
            S::size_is_positive();
            vstd::arithmetic::div_mod::lemma_small_mod(0, S::SIZE_BYTES as nat);
        }
        SequentialPages { addr: 0, count: 0, phantom: PhantomData }
    }

    /// Joins `pages` into one range.
    ///
    /// Succeeds exactly on the sequences that `accepts` describes. Otherwise
    /// every handle comes back in the error, in the order it was passed in,
    /// so that no frame leaks.
    pub fn from_pages(pages: Vec<Page<S>>) -> (r: Result<Self, Vec<Page<S>>>)
        ensures
            r is Ok <==> Self::accepts(pages@),
            r matches Ok(s) ==> {
                &&& s == Self::spec_new(pages@[0]@, pages@.len() as u64)
                &&& s@ == page_addrs(pages@)
                &&& s.wf()
            },
            r matches Err(v) ==> v@ == pages@,
    {
        proof {
            S::size_is_positive();
        }
        let n = pages.len();
        if n == 0 {
            return Err(pages);
        }
        let addr = pages[0].addr().bits();
        let mut last_addr = addr;
        let mut count: u64 = 1;
        let mut i: usize = 1;
        while i < n
            invariant
                1 <= i <= n,
                n == pages@.len(),
                count == i,
                S::SIZE_BYTES > 0,
                addr == pages@[0]@,
                is_aligned(addr as int, S::SIZE_BYTES as int),
                last_addr == addr + (i - 1) * S::SIZE_BYTES,
                forall|j: int| 0 <= j < i ==> (#[trigger] pages@[j])@ == addr + j * S::SIZE_BYTES,
            decreases n - i,
        {
            let this_addr = pages[i].addr().bits();
            let next_addr = match last_addr.checked_add(S::SIZE_BYTES) {
                Some(a) => a,
                None => {
                    assert(pages@[i as int]@ != pages@[i - 1]@ + S::SIZE_BYTES);
                    return Err(pages);
                },
            };
            if this_addr != next_addr {
                assert(pages@[i as int]@ != pages@[i - 1]@ + S::SIZE_BYTES);
                return Err(pages);
            }
            assert(addr + (i - 1) * S::SIZE_BYTES + S::SIZE_BYTES == addr + i * S::SIZE_BYTES)
                by (nonlinear_arith);
            last_addr = this_addr;
            count = count + 1;
            i = i + 1;
        }
        assert(Self::consecutive(pages@)) by {
            assert forall|k: int| 0 < k < pages@.len() implies (#[trigger] pages@[k])@ == pages@[k
                - 1]@ + S::SIZE_BYTES by {
                assert(pages@[k - 1]@ == addr + (k - 1) * S::SIZE_BYTES);
                assert(addr + (k - 1) * S::SIZE_BYTES + S::SIZE_BYTES == addr + k * S::SIZE_BYTES)
                    by (nonlinear_arith);
            }
        }
        match count.checked_mul(S::SIZE_BYTES) {
            None => Err(pages),
            Some(_) => {
                let seq = SequentialPages { addr, count, phantom: PhantomData };
                assert(seq@ =~= page_addrs(pages@));
                Ok(seq)
            },
        }
    }

    /// The address of the first frame: the start of the contiguous region.
    #[verifier::when_used_as_spec(spec_base)]
    pub fn base(&self) -> (r: u64)
        ensures
            r == self.spec_base(),
            self.wf(),
    {
        proof {
            use_type_invariant(self);
        }
        self.addr
    }

    /// The number of frames in the range.
    #[verifier::when_used_as_spec(spec_count)]
    pub fn count(&self) -> (r: u64)
        ensures
            r == self.spec_count(),
            self.wf(),
    {
        proof {
            use_type_invariant(self);
        }
        self.count
    }

    /// The length in bytes of the contiguous region.
    pub fn length_bytes(&self) -> (r: u64)
        ensures
            r == self.spec_count() * S::SIZE_BYTES,
    {
        proof {
            use_type_invariant(self);
        }
        self.count * S::SIZE_BYTES
    }

    /// The range of `count` frames from `start` on, without any check that
    /// the frames are there or free: the caller vouches that it owns all of
    /// that memory, and none of it through another handle.
    pub fn from_mem_range(start: PageAddr<S>, count: u64) -> (r: Self)
        requires
            Self::range_fits(start@, count),
        ensures
            r == Self::spec_new(start@, count),
            r.wf(),
    {
        SequentialPages { addr: start.bits(), count, phantom: PhantomData }
    }

    /// Takes the range apart into its frames, lowest address first.
    pub fn into_iter(self) -> (r: SeqPageIter<S>)
        ensures
            r@ == self@,
    {
        SeqPageIter { pages: self }
    }

    /// In a valid range every frame's address is aligned to the frame size,
    /// and no two frames have the same address.
    pub proof fn lemma_frames_aligned_and_distinct(self)
        requires
            self.wf(),
        ensures
            self@.len() == self.spec_count(),
            forall|i: int|
                0 <= i < self@.len() ==> {
                    &&& #[trigger] self@[i] == self.spec_base() + i * S::SIZE_BYTES
                    &&& is_aligned(self@[i] as int, S::SIZE_BYTES as int)
                },
            forall|i: int, j: int|
                0 <= i < self@.len() && 0 <= j < self@.len() && i != j ==> self@[i] != self@[j],
    {
        S::size_is_positive();
        let size = S::SIZE_BYTES as int;
        let base = self.spec_base() as int;
        let count = self.spec_count() as int;
        assert forall|i: int| 0 <= i < self@.len() implies {
            &&& #[trigger] self@[i] == base + i * size
            &&& is_aligned(self@[i] as int, size)
        } by {
            assert(0 <= i * size <= (count - 1) * size) by (nonlinear_arith)
                requires
                    0 <= i <= count - 1,
                    size > 0,
            ;
            crate::page::lemma_aligned_add_multiple(base, i, size);
        }
        assert forall|i: int, j: int|
            0 <= i < self@.len() && 0 <= j < self@.len() && i != j implies self@[i] != self@[j] by {
            assert(i * size != j * size) by (nonlinear_arith)
                requires
                    i != j,
                    size > 0,
            ;
        }
    }

    /// Joining the frames of a non-empty valid range gives that range back.
    pub proof fn lemma_round_trip(self)
        requires
            self.wf(),
            self.spec_count() > 0,
        ensures
            Self::accepts(self.spec_pages()),
            page_addrs(self.spec_pages()) == self@,
            Self::spec_new(self.spec_pages()[0]@, self.spec_pages().len() as u64) == self,
    {
        broadcast use Page::lemma_at, PageAddr::lemma_from_bits_view;

        self.lemma_frames_aligned_and_distinct();
        let pages = self.spec_pages();
        let size = S::SIZE_BYTES as int;
        assert forall|i: int| 0 <= i < pages.len() implies (#[trigger] pages[i])@ == self@[i] by {}
        assert(page_addrs(pages) =~= self@);
        assert forall|i: int| 0 < i < pages.len() implies (#[trigger] pages[i])@ == pages[i - 1]@
            + S::SIZE_BYTES by {
            assert(pages[i]@ == self@[i]);
            assert(pages[i - 1]@ == self@[i - 1]);
            assert(self.spec_base() + (i - 1) * size + size == self.spec_base() + i * size)
                by (nonlinear_arith);
        }
        assert(pages[0]@ == self@[0]);
        self.lemma_determined(Self::spec_new(pages[0]@, pages.len() as u64));
    }

    /// A sequence of handles is not joined if the frames it would span, from
    /// the first handle's address on, reach beyond the 64-bit address space.
    pub proof fn lemma_overlong_rejected(pages: Seq<Page<S>>)
        requires
            pages.len() > 0,
            pages[0]@ + (pages.len() - 1) * S::SIZE_BYTES > u64::MAX,
        ensures
            !Self::accepts(pages),
    {
        S::size_is_positive();
        if Self::consecutive(pages) {
            Self::lemma_consecutive_offsets(pages, pages.len() - 1);
        }
    }

    /// In a consecutive sequence the `i`-th handle lies `i` frames above the
    /// first.
    pub proof fn lemma_consecutive_offsets(pages: Seq<Page<S>>, i: int)
        requires
            Self::consecutive(pages),
            0 <= i < pages.len(),
        ensures
            pages[i]@ == pages[0]@ + i * S::SIZE_BYTES,
        decreases i,
    {
        if i > 0 {
            Self::lemma_consecutive_offsets(pages, i - 1);
            assert(pages[i]@ == pages[i - 1]@ + S::SIZE_BYTES);
            assert(pages[0]@ + (i - 1) * S::SIZE_BYTES + S::SIZE_BYTES == pages[0]@ + i
                * S::SIZE_BYTES) by (nonlinear_arith);
        } else {
            assert(0 * S::SIZE_BYTES == 0) by (nonlinear_arith);
        }
    }
}

impl<S: PageSize> From<Page<S>> for SequentialPages<S> {
    /// The range that consists of the one frame `p`.
    fn from(p: Page<S>) -> (r: Self)
        ensures
            r@ == seq![p@],
            r.wf(),
    {
        proof {
            S::size_is_positive();
        }
        let seq = SequentialPages { addr: p.addr().bits(), count: 1, phantom: PhantomData };
        assert(seq@ =~= seq![p@]);
        seq
    }
}

impl<S: PageSize> vstd::std_specs::convert::FromSpecImpl<Page<S>> for SequentialPages<S> {
    open spec fn obeys_from_spec() -> bool {
        true
    }

    open spec fn from_spec(p: Page<S>) -> Self {
        Self::spec_new(p@, 1)
    }
}

/// The frames of a range that have not been handed out yet, lowest address
/// first. The view is the sequence of their raw addresses.
#[derive(Debug)]
pub struct SeqPageIter<S: PageSize> {
    pages: SequentialPages<S>,
}

impl<S: PageSize> View for SeqPageIter<S> {
    type V = Seq<u64>;

    closed spec fn view(&self) -> Seq<u64> {
        self.pages@
    }
}

impl<S: PageSize> SeqPageIter<S> {
    /// Hands out the lowest frame that is left, if any.
    pub fn next(&mut self) -> (r: Option<Page<S>>)
        ensures
            old(self)@.len() == 0 ==> r is None && final(self)@ == old(self)@,
            old(self)@.len() > 0 ==> {
                &&& r matches Some(p)
                &&& p@ == old(self)@[0]
                &&& final(self)@ == old(self)@.skip(1)
            },
    {
        proof {
            use_type_invariant(&self.pages);
            S::size_is_positive();
            self.pages.lemma_frames_aligned_and_distinct();
        }
        if self.pages.count == 0 {
            return None;
        }
        let addr = self.pages.addr;
        let count = self.pages.count;
        let ghost before = self.pages@;
        let rest = if count > 1 {
            proof {
                assert(addr + S::SIZE_BYTES <= addr + (count - 1) * S::SIZE_BYTES)
                    by (nonlinear_arith)
                    requires
                        count > 1,
                        S::SIZE_BYTES > 0,
                ;
                crate::page::lemma_aligned_add_multiple(addr as int, 1, S::SIZE_BYTES as int);
                assert((count - 1) * S::SIZE_BYTES <= count * S::SIZE_BYTES) by (nonlinear_arith)
                    requires
                        S::SIZE_BYTES > 0,
                ;
                assert(addr + S::SIZE_BYTES + (count - 1 - 1) * S::SIZE_BYTES == addr + (count
                    - 1) * S::SIZE_BYTES) by (nonlinear_arith);
            }
            SequentialPages { addr: addr + S::SIZE_BYTES, count: count - 1, phantom: PhantomData }
        } else {
            SequentialPages { addr, count: 0, phantom: PhantomData }
        };
        proof {
            assert forall|i: int| 0 <= i < rest@.len() implies rest@[i] == before.skip(1)[i] by {
                assert(addr + S::SIZE_BYTES + i * S::SIZE_BYTES == addr + (i + 1) * S::SIZE_BYTES)
                    by (nonlinear_arith);
            }
            assert(rest@ =~= before.skip(1));
        }
        self.pages = rest;
        match PageAddr::new(PhysAddr::new(addr)) {
            Some(a) => Some(Page::new(a)),
            None => None,
        }
    }

    /// Hands out all the frames that are left, lowest address first.
    pub fn collect(self) -> (r: Vec<Page<S>>)
        ensures
            page_addrs(r@) == self@,
    {
        let mut iter = self;
        let mut out: Vec<Page<S>> = Vec::new();
        loop
            invariant
                page_addrs(out@) + iter@ == self@,
            decreases iter@.len(),
        {
            let ghost before = iter@;
            let ghost done = out@;
            match iter.next() {
                Some(p) => {
                    out.push(p);
                    assert(page_addrs(out@) =~= page_addrs(done).push(p@));
                    assert(page_addrs(done).push(before[0]) + before.skip(1) =~= page_addrs(done)
                        + before);
                },
                None => {
                    assert(page_addrs(out@) + iter@ =~= page_addrs(out@));
                    return out;
                },
            }
        }
    }
}

} // verus!
