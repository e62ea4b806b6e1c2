//! Physical addresses, frame sizes, and the linear handles that convey
//! ownership of physical frames.

use core::marker::PhantomData;
use vstd::prelude::*;

verus! {

/// A size of physical frame that the platform can map.
pub trait PageSize: Sized + Copy {
    /// Number of bytes in one frame of this size.
    const SIZE_BYTES: u64;

    /// Every frame size is positive.
    proof fn size_is_positive()
        ensures
            Self::SIZE_BYTES > 0,
    ;
}

/// The base frame size, 4 KiB.
#[derive(Clone, Copy, Debug)]
pub struct PageSize4k;

impl PageSize for PageSize4k {
    const SIZE_BYTES: u64 = 0x1000;

    proof fn size_is_positive() {
    }
}

/// A megapage, 2 MiB.
#[derive(Clone, Copy, Debug)]
pub struct PageSize2M;

impl PageSize for PageSize2M {
    const SIZE_BYTES: u64 = 0x20_0000;

    proof fn size_is_positive() {
    }
}

/// A gigapage, 1 GiB.
#[derive(Clone, Copy, Debug)]
pub struct PageSize1G;

impl PageSize for PageSize1G {
    const SIZE_BYTES: u64 = 0x4000_0000;

    proof fn size_is_positive() {
    }
}

/// The number of bytes in a 4 KiB frame.
pub const PAGE_SIZE_4K: u64 = 0x1000;

/// The sizes of the frames, in numbers.
pub proof fn lemma_size_4k()
    ensures
        PageSize4k::SIZE_BYTES == PAGE_SIZE_4K,
        PAGE_SIZE_4K == 0x1000,
        PageSize2M::SIZE_BYTES == 0x20_0000,
        PageSize1G::SIZE_BYTES == 0x4000_0000,
{
}

/// A 64-bit address of a byte of physical memory.
#[derive(Clone, Copy, Debug)]
pub struct PhysAddr(u64);

impl PhysAddr {
    pub closed spec fn spec_bits(&self) -> u64 {
        self.0
    }

    /// Wraps a raw address.
    pub fn new(addr: u64) -> (r: Self)
        ensures
            r.bits() == addr,
    {
        PhysAddr(addr)
    }

    /// The raw address.
    #[verifier::when_used_as_spec(spec_bits)]
    pub fn bits(&self) -> (r: u64)
        ensures
            r == self.bits(),
    {
        self.0
    }
}

/// Whether `addr` is a multiple of `align`.
pub open spec fn is_aligned(addr: int, align: int) -> bool {
    addr % align == 0
}

/// A physical address that is a multiple of the frame size `S`.
#[derive(Debug)]
pub struct PageAddr<S: PageSize> {
    addr: u64,
    phantom: PhantomData<S>,
}

impl<S: PageSize> Clone for PageAddr<S> {
    fn clone(&self) -> (r: Self)
        ensures
            r == *self,
    {
        proof {
            use_type_invariant(self);
        }
        PageAddr { addr: self.addr, phantom: PhantomData }
    }
}

impl<S: PageSize> Copy for PageAddr<S> {

}

impl<S: PageSize> View for PageAddr<S> {
    type V = u64;

    closed spec fn view(&self) -> u64 {
        self.addr
    }
}

impl<S: PageSize> PageAddr<S> {
    #[verifier::type_invariant]
    spec fn inv(self) -> bool {
        is_aligned(self.addr as int, S::SIZE_BYTES as int)
    }

    /// Validity of a page address: it is a multiple of the frame size.
    pub open spec fn wf(&self) -> bool {
        is_aligned(self@ as int, S::SIZE_BYTES as int)
    }

    /// The raw address, in specifications.
    pub open spec fn spec_bits(&self) -> u64 {
        self@
    }

    /// The page address with the given raw address.
    pub closed spec fn from_bits(addr: u64) -> Self {
        PageAddr { addr, phantom: PhantomData }
    }

    /// A page address is determined by its raw address.
    pub broadcast proof fn lemma_from_bits(self)
        ensures
            #[trigger] Self::from_bits(self@) == self,
    {
    }

    /// `from_bits` yields the address it was given.
    pub broadcast proof fn lemma_from_bits_view(addr: u64)
        ensures
            (#[trigger] Self::from_bits(addr))@ == addr,
    {
    }

    /// Accepts `addr` if it is aligned to the frame size.
    pub fn new(addr: PhysAddr) -> (r: Option<Self>)
        ensures
            r is Some <==> is_aligned(addr.bits() as int, S::SIZE_BYTES as int),
            r matches Some(a) ==> a@ == addr.bits() && a.wf(),
    {
        proof {
            S::size_is_positive();
        }
        if addr.bits() % S::SIZE_BYTES == 0 {
            Some(PageAddr { addr: addr.bits(), phantom: PhantomData })
        } else {
            None
        }
    }

    /// The raw address.
    #[verifier::when_used_as_spec(spec_bits)]
    pub fn bits(&self) -> (r: u64)
        ensures
            r == self@,
            self.wf(),
    {
        proof {
            use_type_invariant(self);
        }
        self.addr
    }

    /// The address `n` frames above this one, if it fits in 64 bits.
    pub fn checked_add_pages(&self, n: u64) -> (r: Option<Self>)
        ensures
            r is Some <==> self@ + n * S::SIZE_BYTES <= u64::MAX,
            r matches Some(a) ==> a@ == self@ + n * S::SIZE_BYTES && a.wf(),
    {
        proof {
            use_type_invariant(self);
            S::size_is_positive();
        }
        match n.checked_mul(S::SIZE_BYTES) {
            Some(bytes) => match self.addr.checked_add(bytes) {
                Some(addr) => {
                    proof {
                        lemma_aligned_add_multiple(
                            self.addr as int,
                            n as int,
                            S::SIZE_BYTES as int,
                        );
                    }
                    Some(PageAddr { addr, phantom: PhantomData })
                },
                None => None,
            },
            None => None,
        }
    }
}

/// Adding a multiple of the alignment to an aligned address keeps it aligned.
pub proof fn lemma_aligned_add_multiple(addr: int, n: int, align: int)
    requires
        align > 0,
        is_aligned(addr, align),
    ensures
        is_aligned(addr + n * align, align),
{
    vstd::arithmetic::div_mod::lemma_mod_multiples_vanish(n, addr, align);
}

pub type AlignedPageAddr4k = PageAddr<PageSize4k>;

/// Exclusive ownership of the physical frame of size `S` at one address.
///
/// A handle is neither copied nor cloned: it moves from the allocator
/// through builders into page tables and back.
#[derive(Debug)]
pub struct Page<S: PageSize> {
    addr: PageAddr<S>,
}

impl<S: PageSize> View for Page<S> {
    type V = u64;

    closed spec fn view(&self) -> u64 {
        self.addr@
    }
}

impl<S: PageSize> Page<S> {
    /// The address of the frame, in specifications.
    pub closed spec fn spec_addr(&self) -> PageAddr<S> {
        self.addr
    }

    /// The handle for the frame at `addr`.
    pub closed spec fn at(addr: PageAddr<S>) -> Self {
        Page { addr }
    }

    /// The handle, its address and its view determine one another.
    pub broadcast proof fn lemma_addr(self)
        ensures
            #![trigger self.spec_addr()]
            self.spec_addr()@ == self@,
            Self::at(self.spec_addr()) == self,
            Self::at(PageAddr::<S>::from_bits(self@)) == self,
    {
        self.addr.lemma_from_bits();
    }

    /// `at` yields the handle of the given address.
    pub broadcast proof fn lemma_at(addr: PageAddr<S>)
        ensures
            #![trigger Self::at(addr)]
            Self::at(addr).spec_addr() == addr,
            Self::at(addr)@ == addr@,
    {
    }

    /// Takes ownership of the frame at `addr`. The caller vouches that the
    /// frame is not owned through any other handle.
    pub fn new(addr: PageAddr<S>) -> (r: Self)
        ensures
            r == Self::at(addr),
            r@ == addr@,
    {
        Page { addr }
    }

    /// The address of the frame.
    #[verifier::when_used_as_spec(spec_addr)]
    pub fn addr(&self) -> (r: PageAddr<S>)
        ensures
            r == self.spec_addr(),
            r@ == self@,
            r.wf(),
    {
        proof {
            use_type_invariant(&self.addr);
        }
        self.addr
    }
}

pub type Page4k = Page<PageSize4k>;

/// The raw addresses of a sequence of page handles.
pub open spec fn page_addrs<S: PageSize>(pages: Seq<Page<S>>) -> Seq<u64> {
    pages.map_values(|p: Page<S>| p@)
}

/// Identifies a principal that can own physical frames: the hypervisor, the
/// host VM, or a guest VM.
#[derive(Clone, Copy, Debug, PartialEq, Eq, Structural)]
pub struct PageOwnerId(u64);

impl PageOwnerId {
    pub closed spec fn spec_raw(&self) -> u64 {
        self.0
    }

    /// The owner with the given raw id, in specifications.
    pub closed spec fn from_raw(id: u64) -> Self {
        PageOwnerId(id)
    }

    /// `from_raw` yields the id it was given.
    pub broadcast proof fn lemma_from_raw(id: u64)
        ensures
            (#[trigger] Self::from_raw(id)).spec_raw() == id,
    {
    }

    pub open spec fn spec_hypervisor() -> Self {
        Self::from_raw(0)
    }

    pub open spec fn spec_host() -> Self {
        Self::from_raw(1)
    }

    /// The id of a guest VM. The ids of the hypervisor and of the host are
    /// reserved and not handed out here.
    pub fn new(id: u64) -> (r: Option<Self>)
        ensures
            r is Some <==> id >= 2,
            r matches Some(o) ==> o == Self::from_raw(id),
    {
        if id < 2 {
            None
        } else {
            Some(PageOwnerId(id))
        }
    }

    /// The hypervisor itself: the initial owner of every frame.
    #[verifier::when_used_as_spec(spec_hypervisor)]
    pub fn hypervisor() -> (r: Self)
        ensures
            r == Self::spec_hypervisor(),
    {
        PageOwnerId(0)
    }

    /// The host VM.
    #[verifier::when_used_as_spec(spec_host)]
    pub fn host() -> (r: Self)
        ensures
            r == Self::spec_host(),
    {
        PageOwnerId(1)
    }

    /// The raw id.
    #[verifier::when_used_as_spec(spec_raw)]
    pub fn raw(&self) -> (r: u64)
        ensures
            r == self.spec_raw(),
    {
        self.0
    }
}

/// A frame that was just removed from a page table, tagged with the size it
/// was mapped at.
#[derive(Debug)]
pub enum UnmappedPage {
    Page4k(Page4k),
    Page2M(Page<PageSize2M>),
    Page1G(Page<PageSize1G>),
}

impl UnmappedPage {
    /// The raw address of the frame.
    pub open spec fn spec_addr_bits(&self) -> u64 {
        match self {
            UnmappedPage::Page4k(p) => p@,
            UnmappedPage::Page2M(p) => p@,
            UnmappedPage::Page1G(p) => p@,
        }
    }

    /// An unmapped 4 KiB frame.
    pub fn new(page: Page4k) -> (r: Self)
        ensures
            r == UnmappedPage::Page4k(page),
    {
        UnmappedPage::Page4k(page)
    }

    /// The raw address of the frame.
    #[verifier::when_used_as_spec(spec_addr_bits)]
    pub fn addr_bits(&self) -> (r: u64)
        ensures
            r == self.spec_addr_bits(),
    {
        match self {
            UnmappedPage::Page4k(p) => p.addr().bits(),
            UnmappedPage::Page2M(p) => p.addr().bits(),
            UnmappedPage::Page1G(p) => p.addr().bits(),
        }
    }

    /// The 4 KiB page, or `err` for a frame of any other size.
    pub fn ok4k_or<E>(self, err: E) -> (r: Result<Page4k, E>)
        ensures
            r == (match self {
                UnmappedPage::Page4k(p) => Ok::<Page4k, E>(p),
                _ => Err::<Page4k, E>(err),
            }),
    {
        match self {
            UnmappedPage::Page4k(p) => Ok(p),
            _ => Err(err),
        }
    }

    /// The 4 KiB page inside.
    pub fn unwrap_4k(self) -> (r: Page4k)
        requires
            self is Page4k,
        ensures
            self == UnmappedPage::Page4k(r),
    {
        match self {
            UnmappedPage::Page4k(p) => p,
            _ => vstd::pervasive::unreached(),
        }
    }
}

/// An unmapped frame that is handed on as scrubbed: whoever receives it must
/// not be able to read what its previous owner wrote.
#[derive(Debug)]
pub struct CleanPage(UnmappedPage);

impl CleanPage {
    pub closed spec fn spec_page(&self) -> UnmappedPage {
        self.0
    }

    /// Marks `page` as scrubbed.
    pub fn from(page: UnmappedPage) -> (r: Self)
        ensures
            r.spec_page() == page,
    {
        CleanPage(page)
    }

    /// The frame, ready to be assigned to its next owner.
    pub fn into(self) -> (r: UnmappedPage)
        ensures
            r == self.spec_page(),
    {
        self.0
    }
}

} // verus!
