//! The memory of virtual machines: the pages of each machine, and the
//! donation of pages from a machine to its guests and back.
//!
//! Operations on many pages are not atomic. They work through the pages in
//! order and stop at the first that fails; what the pages before it brought
//! about stays. The contracts say so.

pub use crate::guest_builder::GuestRootBuilder;
pub use crate::host_builder::{HostRootBuilder, HostRootPages};
use crate::measure::DataMeasure;
use crate::page::{
    is_aligned, lemma_size_4k, AlignedPageAddr4k, CleanPage, Page, Page4k, PageOwnerId, PageSize4k,
    UnmappedPage, PAGE_SIZE_4K,
};
use crate::page_table::{
    frames_of, invalidated, mapping_to, present_pages, unmapped, valid_pages, Mapping,
    PageTableError, PlatformPageTable,
};
use crate::page_tracking::{PageTrackingError, PhysPages, PhysPagesView};
use crate::vec_util::{lemma_reverse_step, reversed};
use vstd::prelude::*;

verus! {

/// Why an operation on the pages of a machine failed.
#[derive(Debug)]
pub enum Error {
    /// No id could be had for a new guest.
    GuestId(PageTrackingError),
    /// The page table rejected the range of guest pages.
    InvalidRange,
    /// The builder has no room for another page-table page.
    InsufficientPtePageStorage,
    /// The page table did not map a page.
    Mapping4kPage(PageTableError),
    /// A page that came out of a page table is not a 4 KiB page.
    Non4kPteEntry,
    /// The platform did not resolve a fault.
    PageFaultHandling,
    /// The directory of frames did not take the new owner of a page.
    SettingOwner(PageTrackingError),
    /// The guest address of the pages for the root of a guest's table is not
    /// aligned to 16 KiB, or a frame for the host does not agree with its
    /// guest address in the bits below the alignment of the top level.
    UnalignedVmPages(AlignedPageAddr4k),
    /// A page to be given back is not owned by the machine that gives it.
    UnownedPage(AlignedPageAddr4k),
}

/// The alignment of the guest address at which a machine carves out the
/// pages for a guest's root table.
pub const GUEST_ROOT_ALIGN: u64 = 0x4000;

/// The number of frames of a guest's root table.
pub const GUEST_ROOT_PAGES: usize = 4;

/// The number of pages that a machine carves out to create a guest: those of
/// the root table, one to keep the guest's page-table pages in, and one for
/// the state of the guest.
pub const GUEST_SETUP_PAGES: usize = 6;

/// What becomes of a page that a machine hands to `owner`: it has to be a
/// 4 KiB page, and the directory has to take `owner` as its new owner.
pub open spec fn claim_result(phys: PhysPagesView, page: UnmappedPage) -> Result<(), Error> {
    if !(page is Page4k) {
        Err(Error::Non4kPteEntry)
    } else {
        match phys.push_result(page.spec_addr_bits()) {
            Ok(()) => Ok(()),
            Err(e) => Err(Error::SettingOwner(e)),
        }
    }
}

/// Handing `pages` to `owner` one after the other, up to the first that
/// fails: the outcome, and what the directory records then.
pub open spec fn claim_all(phys: PhysPagesView, owner: PageOwnerId, pages: Seq<UnmappedPage>) -> (
    Result<(), Error>,
    PhysPagesView,
)
    decreases pages.len(),
{
    if pages.len() == 0 {
        (Ok(()), phys)
    } else {
        match claim_result(phys, pages[0]) {
            Err(e) => (Err(e), phys),
            Ok(()) => claim_all(
                phys.pushed(pages[0].spec_addr_bits(), owner),
                owner,
                pages.skip(1),
            ),
        }
    }
}

/// Makes `owner` the owner of `page`, which has to be a 4 KiB page.
pub fn claim_page(phys: &mut PhysPages, page: UnmappedPage, owner: PageOwnerId) -> (r: Result<
    Page4k,
    Error,
>)
    ensures
        r is Ok <==> claim_result(old(phys)@, page) is Ok,
        r matches Ok(p) ==> {
            &&& page == UnmappedPage::Page4k(p)
            &&& final(phys)@ == old(phys)@.pushed(page.spec_addr_bits(), owner)
        },
        r matches Err(e) ==> {
            &&& claim_result(old(phys)@, page) == Err::<(), Error>(e)
            &&& final(phys)@ == old(phys)@
        },
        old(phys)@.wf(),
        final(phys)@.wf(),
{
    match page {
        UnmappedPage::Page4k(p) => match phys.set_page_owner(p.addr(), owner) {
            Ok(()) => Ok(p),
            Err(e) => Err(Error::SettingOwner(e)),
        },
        _ => {
            phys.check();
            Err(Error::Non4kPteEntry)
        },
    }
}

/// The memory of one virtual machine: its second-stage page table and the
/// measurement of its initial image.
///
/// A machine donates pages to the guests that it creates, and gives pages
/// back to the machine that it got them from.
pub struct VmPages<T: PlatformPageTable, D: DataMeasure> {
    root: T,
    measurement: D,
}

impl<T: PlatformPageTable, D: DataMeasure> VmPages<T, D> {
    /// The page table of the machine, in specifications.
    pub closed spec fn spec_root(&self) -> T {
        self.root
    }

    /// The measurement of the machine, in specifications.
    pub closed spec fn spec_measurement(&self) -> D {
        self.measurement
    }

    /// The pages of the machine with the page table `root` and the
    /// measurement `measurement`.
    pub(crate) fn from_parts(root: T, measurement: D) -> (r: Self)
        ensures
            r.spec_root() == root,
            r.spec_measurement() == measurement,
    {
        VmPages { root, measurement }
    }

    /// The owner of the pages of this machine.
    pub fn page_owner_id(&self) -> (r: PageOwnerId)
        ensures
            r == self.spec_root().owner(),
    {
        self.root.page_owner_id()
    }

    /// The measurement of the initial image of the machine.
    pub fn get_measurement(&self) -> (r: &D)
        ensures
            *r == self.spec_measurement(),
    {
        &self.measurement
    }

    /// The second-stage page table of the machine.
    pub fn root(&self) -> (r: &T)
        ensures
            *r == self.spec_root(),
    {
        &self.root
    }

    /// Handles a fault of the machine at `addr`.
    pub fn handle_page_fault(&mut self, addr: u64) -> (r: Result<(), Error>)
        ensures
            r is Ok <==> old(self).spec_root().resolves_fault(addr),
            r is Err ==> r == Err::<(), Error>(Error::PageFaultHandling),
            final(self).spec_root().owner() == old(self).spec_root().owner(),
            final(self).spec_root().root_pages() == old(self).spec_root().root_pages(),
            final(self).spec_root().node_frames() == old(self).spec_root().node_frames(),
            final(self).spec_measurement() == old(self).spec_measurement(),
    {
        if self.root.do_guest_fault(addr) {
            Ok(())
        } else {
            Err(Error::PageFaultHandling)
        }
    }

    /// Ends the life of the machine: its owner id leaves the set of the
    /// guests alive. The frames that the machine still owns are not given
    /// back by this; the machine that donated them has to take them back
    /// before.
    pub fn release(self, phys: &mut PhysPages)
        ensures
            final(phys)@ == old(phys)@.without_guest(self.spec_root().owner()),
            !final(phys)@.active.contains(self.spec_root().owner()),
            old(phys)@.wf(),
            final(phys)@.wf(),
    {
        let id = self.root.page_owner_id();
        phys.rm_active_guest(id);
    }
}

/// The entries after the frames `frames` have been mapped at consecutive
/// guest pages from `base` on.
pub open spec fn mapped_seq(entries: Map<u64, Mapping>, base: u64, frames: Seq<u64>) -> Map<
    u64,
    Mapping,
>
    decreases frames.len(),
{
    if frames.len() == 0 {
        entries
    } else {
        mapped_seq(entries, base, frames.drop_last()).insert(
            crate::page_table::slot(base, frames.len() - 1),
            mapping_to(frames.last()),
        )
    }
}

/// The log of a measurement after the frames `frames` have been measured at
/// consecutive guest pages from `base` on.
pub open spec fn logged_seq(log: Seq<(u64, u64)>, base: u64, frames: Seq<u64>) -> Seq<(u64, u64)> {
    log + Seq::new(frames.len(), |i: int| (crate::page_table::slot(base, i), frames[i]))
}

/// The directory after `owner` has become the owner of each of `frames`.
pub open spec fn pushed_all(
    phys: PhysPagesView,
    owner: PageOwnerId,
    frames: Seq<u64>,
) -> PhysPagesView
    decreases frames.len(),
{
    if frames.len() == 0 {
        phys
    } else {
        pushed_all(phys, owner, frames.drop_last()).pushed(frames.last(), owner)
    }
}

/// Handing pages over one after the other is handing over the first and
/// then the rest.
pub proof fn lemma_claim_all_step(phys: PhysPagesView, owner: PageOwnerId, pages: Seq<UnmappedPage>)
    requires
        pages.len() > 0,
    ensures
        claim_result(phys, pages[0]) matches Err(e) ==> claim_all(phys, owner, pages) == (
            Err::<(), Error>(e),
            phys,
        ),
        claim_result(phys, pages[0]) is Ok ==> claim_all(phys, owner, pages) == claim_all(
            phys.pushed(pages[0].spec_addr_bits(), owner),
            owner,
            pages.skip(1),
        ),
{
}

/// What becomes of a page that the machine `owner` gives back: it has to be
/// a 4 KiB page whose current owner is `owner`.
pub open spec fn reclaim_result(
    phys: PhysPagesView,
    owner: PageOwnerId,
    page: UnmappedPage,
) -> Result<(), Error> {
    if !(page is Page4k) {
        Err(Error::Non4kPteEntry)
    } else {
        let p = page->Page4k_0;
        match phys.pop_result(p@) {
            Err(_) => Err(Error::UnownedPage(p.spec_addr())),
            Ok(o) => if o != owner {
                Err(Error::UnownedPage(p.spec_addr()))
            } else {
                Ok(())
            },
        }
    }
}

/// What the directory records after a machine tried to give `page` back: the
/// current owner of the page has been taken off, whoever it was.
pub open spec fn reclaim_state(phys: PhysPagesView, page: UnmappedPage) -> PhysPagesView {
    if page is Page4k && phys.pop_result(page.spec_addr_bits()) is Ok {
        phys.popped(page.spec_addr_bits())
    } else {
        phys
    }
}

/// Giving `pages` back one after the other, up to the first that fails: the
/// outcome, and what the directory records then.
pub open spec fn reclaim_all(phys: PhysPagesView, owner: PageOwnerId, pages: Seq<UnmappedPage>) -> (
    Result<(), Error>,
    PhysPagesView,
)
    decreases pages.len(),
{
    if pages.len() == 0 {
        (Ok(()), phys)
    } else {
        let next = reclaim_state(phys, pages[0]);
        match reclaim_result(phys, owner, pages[0]) {
            Err(e) => (Err(e), next),
            Ok(()) => reclaim_all(next, owner, pages.skip(1)),
        }
    }
}

/// Gives `page` back from the machine `owner` to the owner before it.
pub fn reclaim_page(phys: &mut PhysPages, owner: PageOwnerId, page: UnmappedPage) -> (r: Result<
    (),
    Error,
>)
    ensures
        r == reclaim_result(old(phys)@, owner, page),
        final(phys)@ == reclaim_state(old(phys)@, page),
        old(phys)@.wf(),
        final(phys)@.wf(),
{
    phys.check();
    let p = match page.ok4k_or(Error::Non4kPteEntry) {
        Ok(p) => p,
        Err(e) => {
            return Err(e);
        },
    };
    proof {
        Page::<PageSize4k>::lemma_addr(p);
    }
    match phys.pop_owner(p.addr()) {
        Err(_) => Err(Error::UnownedPage(p.addr())),
        Ok(o) => if o != owner {
            Err(Error::UnownedPage(p.addr()))
        } else {
            Ok(())
        },
    }
}

/// Gives `pages` back from the machine `owner`, one after the other, and
/// stops at the first that `owner` does not own.
pub fn reclaim_pages(phys: &mut PhysPages, owner: PageOwnerId, pages: Vec<UnmappedPage>) -> (r:
    Result<(), Error>)
    ensures
        (r, final(phys)@) == reclaim_all(old(phys)@, owner, pages@),
        old(phys)@.wf(),
        final(phys)@.wf(),
{
    phys.check();
    let ghost phys0 = phys@;
    let ghost mut remaining = pages@;
    let mut rest = reversed(pages);
    loop
        invariant
            phys0 == old(phys)@,
            phys0.wf(),
            rest@ == remaining.reverse(),
            reclaim_all(phys0, owner, pages@) == reclaim_all(phys@, owner, remaining),
            phys@.wf(),
        decreases rest@.len(),
    {
        match rest.pop() {
            None => {
                return Ok(());
            },
            Some(page) => {
                proof {
                    lemma_reverse_step(remaining);
                }
                let clean: UnmappedPage = CleanPage::from(page).into();
                match reclaim_page(phys, owner, clean) {
                    Ok(()) => {},
                    Err(e) => {
                        return Err(e);
                    },
                }
                proof {
                    remaining = remaining.skip(1);
                }
            },
        }
    }
}

impl<T: PlatformPageTable, D: DataMeasure> VmPages<T, D> {
    /// Starts a guest of this machine with the six pages that the machine
    /// has mapped from `from_addr` on, which has to be aligned to 16 KiB.
    /// Returns the builder of the guest and the page for the guest's state.
    ///
    /// In this order: a misaligned address is answered with
    /// `UnalignedVmPages` and nothing has changed. Then the guest gets its
    /// id, or the error is `GuestId` and nothing has changed. Then the six
    /// pages are invalidated in the table of this machine, or the error is
    /// `InvalidRange`, and the id stays with the guests alive. Then
    /// `GuestRootBuilder::from_setup_pages` sets the guest up from the pages
    /// that came out of the table.
    pub fn create_guest_root_builder(
        &mut self,
        phys: &mut PhysPages,
        from_addr: AlignedPageAddr4k,
    ) -> (r: Result<(GuestRootBuilder<T, D>, Page4k), Error>)
        ensures
            final(self).spec_measurement() == old(self).spec_measurement(),
            final(self).spec_root().owner() == old(self).spec_root().owner(),
            final(self).spec_root().root_pages() == old(self).spec_root().root_pages(),
            final(self).spec_root().node_frames() == old(self).spec_root().node_frames(),
            old(phys)@.wf(),
            final(phys)@.wf(),
            !is_aligned(from_addr@ as int, GUEST_ROOT_ALIGN as int) ==> {
                &&& r matches Err(Error::UnalignedVmPages(a))
                &&& a == from_addr
                &&& final(self).spec_root() == old(self).spec_root()
                &&& final(phys)@ == old(phys)@
            },
            is_aligned(from_addr@ as int, GUEST_ROOT_ALIGN as int) ==> match old(
                phys,
            )@.guest_result() {
                Err(e) => {
                    &&& r matches Err(Error::GuestId(e2))
                    &&& e2 == e
                    &&& final(self).spec_root() == old(self).spec_root()
                    &&& final(phys)@ == old(phys)@
                },
                Ok(id) => if !old(self).spec_root().accepts_range(
                    from_addr@,
                    GUEST_SETUP_PAGES as u64,
                ) {
                    &&& r matches Err(Error::InvalidRange)
                    &&& final(self).spec_root().entries() == old(self).spec_root().entries()
                    &&& final(phys)@ == old(phys)@.with_guest()
                } else {
                    &&& final(self).spec_root().entries() == invalidated(
                        old(self).spec_root().entries(),
                        from_addr@,
                        GUEST_SETUP_PAGES as u64,
                    )
                    &&& GuestRootBuilder::<T, D>::set_up(
                        old(phys)@.with_guest(),
                        final(phys)@,
                        id,
                        valid_pages(
                            old(self).spec_root().entries(),
                            from_addr@,
                            GUEST_SETUP_PAGES as nat,
                        ),
                        r,
                    )
                },
            },
    {
        phys.check();
        if from_addr.bits() % GUEST_ROOT_ALIGN != 0 {
            return Err(Error::UnalignedVmPages(from_addr));
        }
        let id = match phys.add_active_guest() {
            Ok(id) => id,
            Err(e) => {
                return Err(Error::GuestId(e));
            },
        };
        let pages = match self.root.invalidate_range(from_addr, GUEST_SETUP_PAGES as u64) {
            Some(pages) => pages,
            None => {
                return Err(Error::InvalidRange);
            },
        };
        GuestRootBuilder::from_setup_pages(phys, id, pages)
    }

    /// Donates the pages that this machine has mapped among the `count`
    /// guest pages from `from_addr` on to the pool of page-table pages of
    /// the guest that `to` sets up.
    ///
    /// If the table of this machine does not work on the range, the answer
    /// is `InvalidRange` and nothing has changed. Else the pages of the
    /// range are invalidated in it, and `GuestRootBuilder::add_pte_pages`
    /// hands them to `to`.
    pub fn add_pte_pages_builder<DF: DataMeasure>(
        &mut self,
        phys: &mut PhysPages,
        from_addr: AlignedPageAddr4k,
        count: u64,
        to: &mut GuestRootBuilder<T, DF>,
    ) -> (r: Result<(), Error>)
        ensures
            final(self).spec_measurement() == old(self).spec_measurement(),
            final(self).spec_root().owner() == old(self).spec_root().owner(),
            final(self).spec_root().root_pages() == old(self).spec_root().root_pages(),
            final(self).spec_root().node_frames() == old(self).spec_root().node_frames(),
            old(phys)@.wf(),
            final(phys)@.wf(),
            !old(self).spec_root().accepts_range(from_addr@, count) ==> {
                &&& r matches Err(Error::InvalidRange)
                &&& final(self).spec_root().entries() == old(self).spec_root().entries()
                &&& final(phys)@ == old(phys)@
                &&& *final(to) == *old(to)
            },
            old(self).spec_root().accepts_range(from_addr@, count) ==> {
                &&& final(self).spec_root().entries() == invalidated(
                    old(self).spec_root().entries(),
                    from_addr@,
                    count,
                )
                &&& old(to).donated_ptes(
                    *final(to),
                    old(phys)@,
                    final(phys)@,
                    valid_pages(old(self).spec_root().entries(), from_addr@, count as nat),
                    r,
                )
            },
    {
        phys.check();
        let pages = match self.root.invalidate_range(from_addr, count) {
            Some(pages) => pages,
            None => {
                return Err(Error::InvalidRange);
            },
        };
        to.add_pte_pages(phys, pages)
    }

    /// Donates the pages that this machine has mapped among the `count`
    /// guest pages from `from_addr` on to the guest that `to` sets up, where
    /// they are mapped at consecutive guest pages from `to_addr` on. With
    /// `measure_preserve` the pages keep their content and are measured;
    /// without, they are mapped as pages of zeroes.
    ///
    /// If `count` pages from `to_addr` on do not lie in the 64-bit address
    /// space, or the table of this machine does not work on the range, the
    /// answer is `InvalidRange` and nothing has changed. Else the pages of
    /// the range are invalidated in the table of this machine, and
    /// `GuestRootBuilder::add_donated_pages` hands them to `to`.
    pub fn add_4k_pages_builder<DF: DataMeasure>(
        &mut self,
        phys: &mut PhysPages,
        from_addr: AlignedPageAddr4k,
        count: u64,
        to: &mut GuestRootBuilder<T, DF>,
        to_addr: AlignedPageAddr4k,
        measure_preserve: bool,
    ) -> (r: Result<u64, Error>)
        ensures
            final(self).spec_measurement() == old(self).spec_measurement(),
            final(self).spec_root().owner() == old(self).spec_root().owner(),
            final(self).spec_root().root_pages() == old(self).spec_root().root_pages(),
            final(self).spec_root().node_frames() == old(self).spec_root().node_frames(),
            old(phys)@.wf(),
            final(phys)@.wf(),
            r matches Ok(n) ==> n == count,
            (to_addr@ + count * PAGE_SIZE_4K > u64::MAX || !old(self).spec_root().accepts_range(
                from_addr@,
                count,
            )) ==> {
                &&& r matches Err(Error::InvalidRange)
                &&& final(self).spec_root().entries() == old(self).spec_root().entries()
                &&& final(phys)@ == old(phys)@
                &&& *final(to) == *old(to)
            },
            (to_addr@ + count * PAGE_SIZE_4K <= u64::MAX && old(self).spec_root().accepts_range(
                from_addr@,
                count,
            )) ==> {
                &&& final(self).spec_root().entries() == invalidated(
                    old(self).spec_root().entries(),
                    from_addr@,
                    count,
                )
                &&& old(to).donated(
                    *final(to),
                    old(phys)@,
                    final(phys)@,
                    valid_pages(old(self).spec_root().entries(), from_addr@, count as nat),
                    to_addr@,
                    measure_preserve,
                    match r {
                        Ok(_) => Ok(()),
                        Err(e) => Err(e),
                    },
                )
            },
    {
        phys.check();
        proof {
            lemma_size_4k();
        }
        if to_addr.checked_add_pages(count).is_none() {
            return Err(Error::InvalidRange);
        }
        let pages = match self.root.invalidate_range(from_addr, count) {
            Some(pages) => pages,
            None => {
                return Err(Error::InvalidRange);
            },
        };
        let inner = to.add_donated_pages(phys, pages, to_addr, measure_preserve);
        match inner {
            Ok(()) => Ok(count),
            Err(e) => Err(e),
        }
    }

    /// Takes the pages that this machine has among the `count` guest pages
    /// from `from_addr` on out of its table and gives them back to the owner
    /// that they had before this machine.
    ///
    /// If the table does not work on the range, the answer is `InvalidRange`
    /// and nothing has changed. Else the entries of the range are taken out
    /// of the table, those that were invalidated too, and `reclaim_pages`
    /// gives the pages back: it fails with `UnownedPage` at the first page
    /// that this machine does not own, such as one that it has donated to a
    /// guest.
    pub fn remove_4k_pages(
        &mut self,
        phys: &mut PhysPages,
        from_addr: AlignedPageAddr4k,
        count: u64,
    ) -> (r: Result<u64, Error>)
        ensures
            final(self).spec_measurement() == old(self).spec_measurement(),
            final(self).spec_root().owner() == old(self).spec_root().owner(),
            final(self).spec_root().root_pages() == old(self).spec_root().root_pages(),
            final(self).spec_root().node_frames() == old(self).spec_root().node_frames(),
            old(phys)@.wf(),
            final(phys)@.wf(),
            r matches Ok(n) ==> n == count,
            !old(self).spec_root().accepts_range(from_addr@, count) ==> {
                &&& r matches Err(Error::InvalidRange)
                &&& final(self).spec_root().entries() == old(self).spec_root().entries()
                &&& final(phys)@ == old(phys)@
            },
            old(self).spec_root().accepts_range(from_addr@, count) ==> {
                &&& final(self).spec_root().entries() == unmapped(
                    old(self).spec_root().entries(),
                    from_addr@,
                    count,
                )
                &&& final(phys)@ == reclaim_all(
                    old(phys)@,
                    old(self).spec_root().owner(),
                    present_pages(old(self).spec_root().entries(), from_addr@, count as nat),
                ).1
                &&& match reclaim_all(
                    old(phys)@,
                    old(self).spec_root().owner(),
                    present_pages(old(self).spec_root().entries(), from_addr@, count as nat),
                ).0 {
                    Ok(()) => r is Ok,
                    Err(e) => r matches Err(e2) && e2 == e,
                }
            },
    {
        phys.check();
        let owner_id = self.root.page_owner_id();
        let pages = match self.root.unmap_range(from_addr, count) {
            Some(pages) => pages,
            None => {
                return Err(Error::InvalidRange);
            },
        };
        let inner = reclaim_pages(phys, owner_id, pages);
        match inner {
            Ok(()) => Ok(count),
            Err(e) => Err(e),
        }
    }
}

/// Giving pages back changes the owners of those pages only.
pub proof fn lemma_reclaim_others(
    phys: PhysPagesView,
    owner: PageOwnerId,
    pages: Seq<UnmappedPage>,
    addr: u64,
)
    requires
        !frames_of(pages).contains(addr),
    ensures
        reclaim_all(phys, owner, pages).1.tracks(addr) == phys.tracks(addr),
        reclaim_all(phys, owner, pages).1.owners[addr] == phys.owners[addr],
        reclaim_all(phys, owner, pages).1.active == phys.active,
        reclaim_all(phys, owner, pages).1.next_id == phys.next_id,
    decreases pages.len(),
{
    if pages.len() > 0 {
        let next = reclaim_state(phys, pages[0]);
        assert(frames_of(pages)[0] == pages[0].spec_addr_bits());
        assert(pages[0].spec_addr_bits() != addr);
        if reclaim_result(phys, owner, pages[0]) is Ok {
            assert forall|k: int| 0 <= k < pages.skip(1).len() implies frames_of(pages.skip(1))[k]
                != addr by {
                assert(frames_of(pages)[k + 1] == pages[k + 1].spec_addr_bits());
            }
            lemma_reclaim_others(next, owner, pages.skip(1), addr);
        }
    }
}

/// When a machine has given pages back, each of them, if no page was given
/// back twice, has lost exactly its last owner, which was that machine, and
/// belongs to the owner that it had before.
pub proof fn lemma_reclaim_pops_once(
    phys: PhysPagesView,
    owner: PageOwnerId,
    pages: Seq<UnmappedPage>,
    i: int,
)
    requires
        phys.wf(),
        reclaim_all(phys, owner, pages).0 is Ok,
        frames_of(pages).no_duplicates(),
        0 <= i < pages.len(),
    ensures
        ({
            let addr = frames_of(pages)[i];
            let after = reclaim_all(phys, owner, pages).1;
            &&& phys.tracks(addr)
            &&& phys.owners[addr].len() >= 2
            &&& phys.owner(addr) == owner
            &&& after.owners[addr] == phys.owners[addr].drop_last()
            &&& after.owner(addr) == phys.owners[addr][phys.owners[addr].len() - 2]
            &&& after.wf()
        }),
    decreases pages.len(),
{
    let first = pages[0].spec_addr_bits();
    let next = reclaim_state(phys, pages[0]);
    let rest = pages.skip(1);
    phys.lemma_popped_wf(first);
    assert(frames_of(pages)[0] == first);
    assert forall|k: int| 0 <= k < rest.len() implies #[trigger] frames_of(rest)[k] == frames_of(
        pages,
    )[k + 1] by {}
    assert(frames_of(rest).no_duplicates());
    if i == 0 {
        assert(!frames_of(rest).contains(first)) by {
            if frames_of(rest).contains(first) {
                let k = choose|k: int| 0 <= k < rest.len() && frames_of(rest)[k] == first;
                assert(frames_of(pages)[k + 1] == first);
            }
        }
        lemma_reclaim_others(next, owner, rest, first);
        lemma_reclaim_wf(next, owner, rest);
    } else {
        lemma_reclaim_pops_once(next, owner, rest, i - 1);
        assert(frames_of(pages)[i] != first);
    }
}

/// Giving pages back keeps the invariant of the directory.
pub proof fn lemma_reclaim_wf(phys: PhysPagesView, owner: PageOwnerId, pages: Seq<UnmappedPage>)
    requires
        phys.wf(),
    ensures
        reclaim_all(phys, owner, pages).1.wf(),
    decreases pages.len(),
{
    if pages.len() > 0 {
        let next = reclaim_state(phys, pages[0]);
        if pages[0] is Page4k && phys.pop_result(pages[0].spec_addr_bits()) is Ok {
            phys.lemma_popped_wf(pages[0].spec_addr_bits());
        }
        if reclaim_result(phys, owner, pages[0]) is Ok {
            lemma_reclaim_wf(next, owner, pages.skip(1));
        }
    }
}

} // verus!
