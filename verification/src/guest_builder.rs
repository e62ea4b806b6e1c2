//! The builder of a guest: its page table, its measurement, and the pool of
//! pages for the interior nodes of its page table.

use crate::measure::DataMeasure;
use crate::page::{
    lemma_size_4k, AlignedPageAddr4k, CleanPage, Page4k, PageOwnerId, PageSize, PageSize4k,
    UnmappedPage, PAGE_SIZE_4K,
};
use crate::page_table::{
    frames_of, map_outcome, mapping_to, nodes_taken, valid_root, Mapping, PageTableError,
    PlatformPageTable,
};
use crate::page_tracking::{PhysPages, PhysPagesView};
use crate::page_vec::PageVec;
use crate::sequential_pages::SequentialPages;
use crate::vec_util::{lemma_reverse_step, reversed};
use crate::vm_pages::{
    claim_all, claim_page, claim_result, lemma_claim_all_step, logged_seq, mapped_seq, pushed_all,
    Error, VmPages, GUEST_ROOT_PAGES, GUEST_SETUP_PAGES,
};
use vstd::prelude::*;

verus! {

/// What `GuestRootBuilder::add_data_page` and `add_zero_page` answer.
pub open spec fn map_result(r: Result<(), PageTableError>) -> Result<(), Error> {
    match r {
        Ok(()) => Ok(()),
        Err(e) => Err(Error::Mapping4kPage(e)),
    }
}

/// Sets up the pages of a new guest: its page table, its measurement, and
/// the pool of pages that its page table takes its interior nodes from.
pub struct GuestRootBuilder<T: PlatformPageTable, D: DataMeasure> {
    root: T,
    measurement: D,
    pte_pages: PageVec<Page4k>,
}

impl<T: PlatformPageTable, D: DataMeasure> GuestRootBuilder<T, D> {
    /// The page table of the guest, in specifications.
    pub closed spec fn spec_root(&self) -> T {
        self.root
    }

    /// The measurement of the guest, in specifications.
    pub closed spec fn spec_measurement(&self) -> D {
        self.measurement
    }

    /// The frames in the pool of page-table pages, the oldest first.
    pub closed spec fn pte_pool(&self) -> Seq<u64> {
        crate::page::page_addrs(self.pte_pages@)
    }

    /// The number of pages that the pool has room for.
    pub closed spec fn pte_capacity(&self) -> nat {
        self.pte_pages.spec_capacity() as nat
    }

    /// What `add_pte_page` answers.
    pub open spec fn pte_result(&self) -> Result<(), Error> {
        if self.pte_pool().len() < self.pte_capacity() {
            Ok(())
        } else {
            Err(Error::InsufficientPtePageStorage)
        }
    }

    /// What mapping `page` at `gpa` answers, from the page table.
    pub open spec fn map_outcome(&self, gpa: u64, page: Page4k) -> Result<(), PageTableError> {
        map_outcome(
            self.spec_root().entries(),
            self.spec_root().missing_nodes(gpa),
            gpa,
            page,
            self.pte_pool().len(),
        )
    }

    /// Whether `after` is the builder `self` after `page` was offered to its
    /// page table at `gpa`, with the answer `r`: the entry is there if `r` is
    /// `Ok`, and the pool has given its newest pages, the newest first, for
    /// the nodes that were missing.
    pub open spec fn mapped(
        &self,
        after: Self,
        gpa: u64,
        page: Page4k,
        r: Result<(), Error>,
    ) -> bool {
        let taken = nodes_taken(
            self.spec_root().entries(),
            self.spec_root().missing_nodes(gpa),
            gpa,
            self.pte_pool().len(),
        );
        &&& r == map_result(self.map_outcome(gpa, page))
        &&& r is Ok ==> after.spec_root().entries() == self.spec_root().entries().insert(
            gpa,
            mapping_to(page@),
        )
        &&& r is Err ==> after.spec_root().entries() == self.spec_root().entries()
        &&& after.spec_root().owner() == self.spec_root().owner()
        &&& after.spec_root().root_pages() == self.spec_root().root_pages()
        &&& after.spec_root().node_frames() == self.spec_root().node_frames()
            + self.pte_pool().reverse().take(taken as int)
        &&& after.pte_pool() == self.pte_pool().take(self.pte_pool().len() - taken)
        &&& after.pte_capacity() == self.pte_capacity()
    }

    /// A builder for the guest with the page table `root`. The pool of
    /// page-table pages is empty; it lives in `pte_page`.
    pub fn new(root: T, pte_page: Page4k) -> (r: Self)
        ensures
            r.spec_root() == root,
            r.spec_measurement().log() == Seq::<(u64, u64)>::empty(),
            r.pte_pool() == Seq::<u64>::empty(),
            r.pte_capacity() == PageVec::<Page4k>::items_in(PAGE_SIZE_4K as nat),
    {
        proof {
            lemma_size_4k();
            broadcast use SequentialPages::lemma_spec_new;

        }
        let pages = <SequentialPages<PageSize4k> as From<Page4k>>::from(pte_page);
        let pte_pages = PageVec::from(pages);
        assert(crate::page::page_addrs(pte_pages@) =~= Seq::<u64>::empty());
        Self { root, measurement: D::default(), pte_pages }
    }

    /// The owner that the pages of the guest are assigned to.
    pub fn page_owner_id(&self) -> (r: PageOwnerId)
        ensures
            r == self.spec_root().owner(),
    {
        self.root.page_owner_id()
    }

    /// The number of pages in the pool of page-table pages.
    pub fn pte_pages_len(&self) -> (r: usize)
        ensures
            r == self.pte_pool().len(),
            r <= self.pte_capacity(),
    {
        self.pte_pages.len()
    }

    /// The measurement of the pages added so far.
    pub fn get_measurement(&self) -> (r: &D)
        ensures
            *r == self.spec_measurement(),
    {
        &self.measurement
    }

    /// The page table of the guest.
    pub fn root(&self) -> (r: &T)
        ensures
            *r == self.spec_root(),
    {
        &self.root
    }

    /// Puts `page` into the pool of page-table pages, if there is room.
    pub fn add_pte_page(&mut self, page: Page4k) -> (r: Result<(), Error>)
        ensures
            r == old(self).pte_result(),
            r is Ok ==> final(self).pte_pool() == old(self).pte_pool().push(page@),
            r is Err ==> final(self).pte_pool() == old(self).pte_pool(),
            final(self).pte_capacity() == old(self).pte_capacity(),
            final(self).spec_root() == old(self).spec_root(),
            final(self).spec_measurement() == old(self).spec_measurement(),
    {
        match self.pte_pages.try_reserve(1) {
            Ok(()) => {},
            Err(_) => {
                return Err(Error::InsufficientPtePageStorage);
            },
        }
        let ghost before = self.pte_pages@;
        self.pte_pages.push(page);
        assert(crate::page::page_addrs(before.push(page)) =~= crate::page::page_addrs(before).push(
            page@,
        ));
        Ok(())
    }

    /// Takes the newest page out of the pool of page-table pages.
    pub fn pop_pte_page(&mut self) -> (r: Option<Page4k>)
        ensures
            old(self).pte_pool().len() == 0 ==> r is None && final(self).pte_pool() == old(
                self,
            ).pte_pool(),
            old(self).pte_pool().len() > 0 ==> {
                &&& r matches Some(p)
                &&& p@ == old(self).pte_pool().last()
                &&& final(self).pte_pool() == old(self).pte_pool().drop_last()
            },
            final(self).pte_capacity() == old(self).pte_capacity(),
            final(self).spec_root() == old(self).spec_root(),
            final(self).spec_measurement() == old(self).spec_measurement(),
    {
        let ghost before = self.pte_pages@;
        let r = self.pte_pages.pop();
        proof {
            if before.len() > 0 {
                assert(crate::page::page_addrs(before.drop_last()) =~= crate::page::page_addrs(
                    before,
                ).drop_last());
            }
        }
        r
    }

    /// Maps `page` at `gpa`, with nodes from the pool.
    fn map_page(&mut self, gpa: u64, page: Page4k) -> (r: Result<(), Error>)
        ensures
            old(self).mapped(*final(self), gpa, page, r),
            final(self).spec_measurement() == old(self).spec_measurement(),
    {
        let ghost pool = self.pte_pool();
        let ghost taken = nodes_taken(
            self.spec_root().entries(),
            self.spec_root().missing_nodes(gpa),
            gpa,
            self.pte_pool().len(),
        );
        let r = self.root.map_page_4k(gpa, page, &mut self.pte_pages);
        proof {
            assert(pool.reverse().skip(taken as int).reverse() =~= pool.take(pool.len() - taken));
            assert(self.pte_pool().reverse().reverse() =~= self.pte_pool());
            assert(self.pte_pool() == pool.take(pool.len() - taken));
        }
        match r {
            Ok(()) => Ok(()),
            Err(e) => Err(Error::Mapping4kPage(e)),
        }
    }

    /// Adds `page` to the guest at `gpa` as a page of its initial image: the
    /// page is measured first, then mapped. It stays measured if the page
    /// table does not map it.
    pub fn add_data_page(&mut self, gpa: u64, page: Page4k) -> (r: Result<(), Error>)
        ensures
            final(self).spec_measurement().log() == old(self).spec_measurement().log().push(
                (gpa, page@),
            ),
            final(self).spec_measurement().log() == log_after_step(
                old(self).spec_measurement().log(),
                BuildStep::Data { gpa, frame: page@ },
            ),
            old(self).mapped(*final(self), gpa, page, r),
    {
        self.measurement.add_page(gpa, &page);
        self.map_page(gpa, page)
    }

    /// Adds `page` to the guest at `gpa` as a page of zeroes: it is mapped
    /// and not measured.
    pub fn add_zero_page(&mut self, gpa: u64, page: Page4k) -> (r: Result<(), Error>)
        ensures
            final(self).spec_measurement() == old(self).spec_measurement(),
            final(self).spec_measurement().log() == log_after_step(
                old(self).spec_measurement().log(),
                BuildStep::Zero { gpa, frame: page@ },
            ),
            old(self).mapped(*final(self), gpa, page, r),
    {
        self.map_page(gpa, page)
    }

    /// The pages of the guest, as set up.
    pub fn create_pages(self) -> (r: VmPages<T, D>)
        ensures
            r.spec_root() == self.spec_root(),
            r.spec_measurement() == self.spec_measurement(),
    {
        VmPages::from_parts(self.root, self.measurement)
    }
}

/// Handing pages to the pool of a builder that has room for `room` more, one
/// after the other, up to the first that fails: the outcome, what the
/// directory records then, and how many pages went into the pool. A page for
/// which the pool has no room has got its new owner all the same.
pub open spec fn donate_ptes(
    phys: PhysPagesView,
    owner: PageOwnerId,
    room: nat,
    pages: Seq<UnmappedPage>,
) -> (Result<(), Error>, PhysPagesView, nat)
    decreases pages.len(),
{
    if pages.len() == 0 {
        (Ok(()), phys, 0)
    } else {
        match claim_result(phys, pages[0]) {
            Err(e) => (Err(e), phys, 0),
            Ok(()) => {
                let next = phys.pushed(pages[0].spec_addr_bits(), owner);
                if room == 0 {
                    (Err(Error::InsufficientPtePageStorage), next, 0)
                } else {
                    let rest = donate_ptes(next, owner, (room - 1) as nat, pages.skip(1));
                    (rest.0, rest.1, rest.2 + 1)
                }
            },
        }
    }
}

impl<T: PlatformPageTable, D: DataMeasure> GuestRootBuilder<T, D> {
    /// Whether the six pages `pages`, once they are all 4 KiB pages owned by
    /// the guest, can set the guest up: the first four are consecutive
    /// frames that the platform takes as the root of a table.
    pub open spec fn root_frames_ok(pages: Seq<UnmappedPage>) -> bool {
        let frames = frames_of(pages);
        &&& forall|i: int| 0 < i < GUEST_ROOT_PAGES ==> #[trigger] frames[i] == frames[i - 1]
            + PAGE_SIZE_4K
        &&& valid_root::<T>(SequentialPages::<PageSize4k>::spec_new(frames[0], 4))
    }

    /// Whether `r` and `after` are what `from_setup_pages` gives and leaves
    /// of the directory `before`, for the guest `id` and the pages `pages`.
    pub open spec fn set_up(
        before: PhysPagesView,
        after: PhysPagesView,
        id: PageOwnerId,
        pages: Seq<UnmappedPage>,
        r: Result<(Self, Page4k), Error>,
    ) -> bool {
        let claimed = claim_all(before, id, pages);
        if pages.len() != GUEST_SETUP_PAGES {
            &&& after == before
            &&& r matches Err(e)
            &&& e == Error::InvalidRange
        } else {
            &&& after == claimed.1
            &&& claimed.0 matches Err(e) ==> r matches Err(e2) && e2 == e
            &&& claimed.0 is Ok ==> {
                &&& r is Ok <==> Self::root_frames_ok(pages)
                &&& r matches Err(e) ==> e == Error::InvalidRange
                &&& r matches Ok((builder, state_page)) ==> {
                    &&& builder.spec_root().owner() == id
                    &&& builder.spec_root().entries() == Map::<u64, Mapping>::empty()
                    &&& builder.spec_root().root_pages() == SequentialPages::<PageSize4k>::spec_new(
                        frames_of(pages)[0],
                        4,
                    )
                    &&& builder.spec_root().node_frames() == Seq::<u64>::empty()
                    &&& builder.spec_measurement().log() == Seq::<(u64, u64)>::empty()
                    &&& builder.pte_pool() == Seq::<u64>::empty()
                    &&& builder.pte_capacity() == PageVec::<Page4k>::items_in(PAGE_SIZE_4K as nat)
                    &&& state_page@ == frames_of(pages)[5]
                }
            }
        }
    }

    /// Sets a new guest `id` up from the six pages that its parent carved
    /// out for it: each page gets `id` as its owner; the first four become
    /// the root of the guest's page table, the fifth holds the pool of
    /// page-table pages, and the sixth is handed back for the state of the
    /// guest.
    pub fn from_setup_pages(phys: &mut PhysPages, id: PageOwnerId, pages: Vec<UnmappedPage>) -> (r:
        Result<(Self, Page4k), Error>)
        ensures
            Self::set_up(old(phys)@, final(phys)@, id, pages@, r),
            old(phys)@.wf(),
            final(phys)@.wf(),
    {
        phys.check();
        if pages.len() != GUEST_SETUP_PAGES {
            return Err(Error::InvalidRange);
        }
        let ghost phys0 = phys@;
        let ghost all = pages@;
        let ghost mut remaining = pages@;
        let mut rest = reversed(pages);
        let mut claimed: Vec<Page4k> = Vec::new();
        while claimed.len() < GUEST_SETUP_PAGES
            invariant
                phys0 == old(phys)@,
                phys0.wf(),
                all == pages@,
                all.len() == GUEST_SETUP_PAGES,
                rest@ == remaining.reverse(),
                remaining == all.skip(claimed@.len() as int),
                claimed@.len() <= GUEST_SETUP_PAGES,
                claim_all(phys0, id, all) == claim_all(phys@, id, remaining),
                forall|j: int|
                    0 <= j < claimed@.len() ==> (#[trigger] claimed@[j])@ == frames_of(all)[j],
                phys@.wf(),
            decreases GUEST_SETUP_PAGES - claimed@.len(),
        {
            let page = match rest.pop() {
                Some(page) => page,
                None => {
                    return Err(Error::InvalidRange);
                },
            };
            proof {
                lemma_reverse_step(remaining);
                lemma_claim_all_step(phys@, id, remaining);
            }
            match claim_page(phys, page, id) {
                Ok(p) => {
                    claimed.push(p);
                },
                Err(e) => {
                    return Err(e);
                },
            }
            proof {
                remaining = remaining.skip(1);
                assert(remaining =~= all.skip(claimed@.len() as int));
            }
        }
        assert(remaining.len() == 0);
        let state_page = match claimed.pop() {
            Some(p) => p,
            None => {
                return Err(Error::InvalidRange);
            },
        };
        let pte_page = match claimed.pop() {
            Some(p) => p,
            None => {
                return Err(Error::InvalidRange);
            },
        };
        proof {
            lemma_size_4k();
            let frames = frames_of(all);
            assert(claimed@.len() == 4);
            assert forall|i: int| 0 <= i < 4 implies (#[trigger] claimed@[i])@ == frames[i] by {}
            if SequentialPages::<PageSize4k>::accepts(claimed@) {
                assert forall|i: int| 0 < i < GUEST_ROOT_PAGES implies #[trigger] frames[i]
                    == frames[i - 1] + PAGE_SIZE_4K by {
                    assert(claimed@[i]@ == claimed@[i - 1]@ + PageSize4k::SIZE_BYTES);
                }
            }
            if forall|i: int| 0 < i < GUEST_ROOT_PAGES ==> #[trigger] frames[i] == frames[i - 1]
                + PAGE_SIZE_4K {
                assert forall|i: int| 0 < i < claimed@.len() implies (#[trigger] claimed@[i])@
                    == claimed@[i - 1]@ + PageSize4k::SIZE_BYTES by {
                    assert(frames[i] == frames[i - 1] + PAGE_SIZE_4K);
                }
            }
        }
        let root_pages = match SequentialPages::from_pages(claimed) {
            Ok(pages) => pages,
            Err(_) => {
                return Err(Error::InvalidRange);
            },
        };
        let root = match T::new(root_pages, id) {
            Ok(root) => root,
            Err(_) => {
                proof {
                    broadcast use SequentialPages::lemma_spec_new;

                }
                return Err(Error::InvalidRange);
            },
        };
        proof {
            broadcast use SequentialPages::lemma_spec_new;

        }
        Ok((GuestRootBuilder::new(root, pte_page), state_page))
    }

    /// Whether `after`, `phys_after` and `r` are what `add_pte_pages` makes
    /// of the builder `self`, the directory `phys` and the pages `pages`.
    pub open spec fn donated_ptes(
        &self,
        after: Self,
        phys: PhysPagesView,
        phys_after: PhysPagesView,
        pages: Seq<UnmappedPage>,
        r: Result<(), Error>,
    ) -> bool {
        let room = (self.pte_capacity() - self.pte_pool().len()) as nat;
        let outcome = donate_ptes(phys, self.spec_root().owner(), room, pages);
        &&& r == outcome.0
        &&& phys_after == outcome.1
        &&& after.pte_pool() == self.pte_pool() + frames_of(pages.take(outcome.2 as int))
        &&& after.pte_capacity() == self.pte_capacity()
        &&& after.spec_root() == self.spec_root()
        &&& after.spec_measurement() == self.spec_measurement()
    }

    /// Takes `pages` from the parent of the guest into the pool of
    /// page-table pages, one after the other: each page is scrubbed, gets
    /// the guest as its owner and goes into the pool. Stops at the first
    /// page that fails.
    pub fn add_pte_pages(&mut self, phys: &mut PhysPages, pages: Vec<UnmappedPage>) -> (r: Result<
        (),
        Error,
    >)
        ensures
            old(self).donated_ptes(*final(self), old(phys)@, final(phys)@, pages@, r),
            old(phys)@.wf(),
            final(phys)@.wf(),
    {
        phys.check();
        let owner = self.page_owner_id();
        let _ = self.pte_pages_len();
        let ghost start = *self;
        let ghost phys0 = phys@;
        let ghost all = pages@;
        let ghost room0 = (self.pte_capacity() - self.pte_pool().len()) as nat;
        let ghost mut remaining = pages@;
        let ghost mut done: nat = 0;
        let mut rest = reversed(pages);
        proof {
            assert(all.take(0) =~= Seq::<UnmappedPage>::empty());
            assert(self.pte_pool() + frames_of(all.take(0)) =~= self.pte_pool());
        }
        loop
            invariant
                phys0 == old(phys)@,
                phys0.wf(),
                all == pages@,
                start == *old(self),
                rest@ == remaining.reverse(),
                remaining == all.skip(done as int),
                done <= all.len(),
                done <= room0,
                room0 == (start.pte_capacity() - start.pte_pool().len()) as nat,
                owner == start.spec_root().owner(),
                self.pte_pool() == start.pte_pool() + frames_of(all.take(done as int)),
                self.pte_capacity() == start.pte_capacity(),
                self.spec_root() == start.spec_root(),
                self.spec_measurement() == start.spec_measurement(),
                self.pte_pool().len() <= self.pte_capacity(),
                ({
                    let total = donate_ptes(phys0, owner, room0, all);
                    let rest_outcome = donate_ptes(phys@, owner, (room0 - done) as nat, remaining);
                    &&& total.0 == rest_outcome.0
                    &&& total.1 == rest_outcome.1
                    &&& total.2 == rest_outcome.2 + done
                }),
                phys@.wf(),
            decreases rest@.len(),
        {
            let page = match rest.pop() {
                Some(page) => page,
                None => {
                    return Ok(());
                },
            };
            proof {
                lemma_reverse_step(remaining);
            }
            let clean: UnmappedPage = CleanPage::from(page).into();
            let page4k = match claim_page(phys, clean, owner) {
                Ok(p) => p,
                Err(e) => {
                    return Err(e);
                },
            };
            let ghost pool = self.pte_pool();
            match self.add_pte_page(page4k) {
                Ok(()) => {},
                Err(e) => {
                    return Err(e);
                },
            }
            proof {
                assert(all.take(done + 1 as int) =~= all.take(done as int).push(remaining[0]));
                assert(frames_of(all.take(done + 1 as int)) =~= frames_of(all.take(done as int)).push(
                    page4k@,
                ));
                assert(pool.push(page4k@) =~= start.pte_pool() + frames_of(all.take(done + 1 as int)));
                remaining = remaining.skip(1);
                done = done + 1;
                assert(remaining =~= all.skip(done as int));
            }
        }
    }

    /// Whether `after`, `phys_after` and `r` are what `add_donated_page`
    /// makes of the builder `self`, the directory `phys` and the page `page`.
    pub open spec fn donated_page(
        &self,
        after: Self,
        phys: PhysPagesView,
        phys_after: PhysPagesView,
        page: UnmappedPage,
        gpa: u64,
        measure_preserve: bool,
        r: Result<(), Error>,
    ) -> bool {
        match claim_result(phys, page) {
            Err(e) => {
                &&& r == Err::<(), Error>(e)
                &&& after == *self
                &&& phys_after == phys
            },
            Ok(()) => {
                &&& phys_after == phys.pushed(page.spec_addr_bits(), self.spec_root().owner())
                &&& self.mapped(after, gpa, page->Page4k_0, r)
                &&& after.spec_measurement().log() == if measure_preserve {
                    self.spec_measurement().log().push((gpa, page.spec_addr_bits()))
                } else {
                    self.spec_measurement().log()
                }
            },
        }
    }

    /// Takes `page` from the parent of the guest and maps it at `gpa`: the
    /// page gets the guest as its owner; then it is measured and mapped, if
    /// its content is to be kept, or mapped as a page of zeroes.
    pub fn add_donated_page(
        &mut self,
        phys: &mut PhysPages,
        page: UnmappedPage,
        gpa: u64,
        measure_preserve: bool,
    ) -> (r: Result<(), Error>)
        ensures
            old(self).donated_page(
                *final(self),
                old(phys)@,
                final(phys)@,
                page,
                gpa,
                measure_preserve,
                r,
            ),
            old(phys)@.wf(),
            final(phys)@.wf(),
    {
        let owner = self.page_owner_id();
        let page4k = match claim_page(phys, page, owner) {
            Ok(p) => p,
            Err(e) => {
                return Err(e);
            },
        };
        if measure_preserve {
            self.add_data_page(gpa, page4k)
        } else {
            self.add_zero_page(gpa, page4k)
        }
    }

    /// Whether `after` and `phys_after` come from the builder `self` and the
    /// directory `phys` by `add_donated_page` on each of `pages` in turn, at
    /// consecutive guest pages from `to_addr` on, when every page went in.
    pub open spec fn donated_all(
        &self,
        after: Self,
        phys: PhysPagesView,
        phys_after: PhysPagesView,
        pages: Seq<UnmappedPage>,
        to_addr: u64,
        measure_preserve: bool,
    ) -> bool
        decreases pages.len(),
    {
        if pages.len() == 0 {
            after == *self && phys_after == phys
        } else {
            &&& to_addr + (pages.len() - 1) * PAGE_SIZE_4K <= u64::MAX
            &&& exists|mid: Self, phys_mid: PhysPagesView|
                {
                    &&& self.donated_all(
                        mid,
                        phys,
                        phys_mid,
                        pages.drop_last(),
                        to_addr,
                        measure_preserve,
                    )
                    &&& #[trigger] mid.donated_page(
                        after,
                        phys_mid,
                        phys_after,
                        pages.last(),
                        crate::page_table::slot(to_addr, pages.len() - 1),
                        measure_preserve,
                        Ok(()),
                    )
                }
        }
    }

    /// Whether `after` and `phys_after` come from the builder `self` and the
    /// directory `phys` when the first `k` of `pages` went in and the next
    /// one failed with `e`: because its guest address lies beyond the address
    /// space, which is an `InvalidRange` and changes nothing, or in
    /// `add_donated_page`.
    pub open spec fn donation_stopped(
        &self,
        after: Self,
        phys: PhysPagesView,
        phys_after: PhysPagesView,
        pages: Seq<UnmappedPage>,
        to_addr: u64,
        measure_preserve: bool,
        k: int,
        e: Error,
    ) -> bool {
        exists|mid: Self, phys_mid: PhysPagesView|
            {
                &&& #[trigger] self.donated_all(
                    mid,
                    phys,
                    phys_mid,
                    pages.take(k),
                    to_addr,
                    measure_preserve,
                )
                &&& if to_addr + k * PAGE_SIZE_4K > u64::MAX {
                    &&& e == Error::InvalidRange
                    &&& after == mid
                    &&& phys_after == phys_mid
                } else {
                    mid.donated_page(
                        after,
                        phys_mid,
                        phys_after,
                        pages[k],
                        crate::page_table::slot(to_addr, k),
                        measure_preserve,
                        Err(e),
                    )
                }
            }
    }

    /// Whether `after`, `phys_after` and `r` are what `add_donated_pages`
    /// makes of the builder `self`, the directory `phys` and the pages
    /// `pages`: the pages went in one after the other, up to the first that
    /// failed. When all went in, every page is owned by the guest and
    /// mapped, and measured if it was to be.
    pub open spec fn donated(
        &self,
        after: Self,
        phys: PhysPagesView,
        phys_after: PhysPagesView,
        pages: Seq<UnmappedPage>,
        to_addr: u64,
        measure_preserve: bool,
        r: Result<(), Error>,
    ) -> bool {
        let owner = self.spec_root().owner();
        let frames = frames_of(pages);
        &&& after.spec_root().owner() == owner
        &&& after.pte_capacity() == self.pte_capacity()
        &&& r is Ok ==> {
            &&& self.donated_all(after, phys, phys_after, pages, to_addr, measure_preserve)
            &&& claim_all(phys, owner, pages) == (Ok::<(), Error>(()), phys_after)
            &&& phys_after == pushed_all(phys, owner, frames)
            &&& after.spec_root().entries() == mapped_seq(
                self.spec_root().entries(),
                to_addr,
                frames,
            )
            &&& after.spec_measurement().log() == if measure_preserve {
                logged_seq(self.spec_measurement().log(), to_addr, frames)
            } else {
                self.spec_measurement().log()
            }
        }
        &&& r matches Err(e) ==> exists|k: int|
            {
                &&& 0 <= k < pages.len()
                &&& #[trigger] self.donation_stopped(
                    after,
                    phys,
                    phys_after,
                    pages,
                    to_addr,
                    measure_preserve,
                    k,
                    e,
                )
                &&& after.spec_root().entries() == mapped_seq(
                    self.spec_root().entries(),
                    to_addr,
                    frames.take(k),
                )
            }
    }

    /// Takes `pages` from the parent of the guest and maps them at
    /// consecutive guest pages from `to_addr` on, one after the other, each
    /// as `add_donated_page` does. Stops at the first page that fails, or
    /// whose guest address would lie beyond the 64-bit address space, which
    /// is an `InvalidRange`.
    pub fn add_donated_pages(
        &mut self,
        phys: &mut PhysPages,
        pages: Vec<UnmappedPage>,
        to_addr: AlignedPageAddr4k,
        measure_preserve: bool,
    ) -> (r: Result<(), Error>)
        ensures
            old(self).donated(
                *final(self),
                old(phys)@,
                final(phys)@,
                pages@,
                to_addr@,
                measure_preserve,
                r,
            ),
            old(phys)@.wf(),
            final(phys)@.wf(),
    {
        phys.check();
        let ghost start = *self;
        let ghost phys0 = phys@;
        let ghost all = pages@;
        let ghost frames = frames_of(pages@);
        let ghost owner = self.spec_root().owner();
        let ghost mut remaining = pages@;
        let mut rest = reversed(pages);
        let mut i: u64 = 0;
        proof {
            lemma_size_4k();
            assert(frames.take(0) =~= Seq::<u64>::empty());
            assert(logged_seq(start.spec_measurement().log(), to_addr@, frames.take(0))
                =~= start.spec_measurement().log());
        }
        loop
            invariant
                phys0 == old(phys)@,
                phys0.wf(),
                all == pages@,
                start == *old(self),
                rest@ == remaining.reverse(),
                remaining == all.skip(i as int),
                i <= all.len(),
                frames == frames_of(all),
                owner == start.spec_root().owner(),
                self.spec_root().owner() == owner,
                self.pte_capacity() == start.pte_capacity(),
                start.donated_all(
                    *self,
                    phys0,
                    phys@,
                    all.take(i as int),
                    to_addr@,
                    measure_preserve,
                ),
                claim_all(phys0, owner, all) == claim_all(phys@, owner, remaining),
                phys@ == pushed_all(phys0, owner, frames.take(i as int)),
                self.spec_root().entries() == mapped_seq(
                    start.spec_root().entries(),
                    to_addr@,
                    frames.take(i as int),
                ),
                self.spec_measurement().log() == if measure_preserve {
                    logged_seq(start.spec_measurement().log(), to_addr@, frames.take(i as int))
                } else {
                    start.spec_measurement().log()
                },
                PageSize4k::SIZE_BYTES == PAGE_SIZE_4K,
                phys@.wf(),
            decreases rest@.len(),
        {
            let ghost before = *self;
            let ghost phys_before = phys@;
            let page = match rest.pop() {
                Some(page) => page,
                None => {
                    proof {
                        assert(frames.take(i as int) =~= frames);
                        assert(all.take(i as int) =~= all);
                    }
                    return Ok(());
                },
            };
            proof {
                lemma_reverse_step(remaining);
                lemma_claim_all_step(phys@, owner, remaining);
            }
            let gpa = match to_addr.checked_add_pages(i) {
                Some(a) => a.bits(),
                None => {
                    proof {
                        assert(start.donation_stopped(
                            *self,
                            phys0,
                            phys@,
                            all,
                            to_addr@,
                            measure_preserve,
                            i as int,
                            Error::InvalidRange,
                        ));
                    }
                    return Err(Error::InvalidRange);
                },
            };
            proof {
                let next = frames.take(i + 1);
                assert(next.drop_last() =~= frames.take(i as int));
                assert(next.last() == remaining[0].spec_addr_bits());
                assert(gpa == crate::page_table::slot(to_addr@, i as int));
            }
            match self.add_donated_page(phys, page, gpa, measure_preserve) {
                Ok(()) => {},
                Err(e) => {
                    proof {
                        assert(before.donated_page(
                            *self,
                            phys_before,
                            phys@,
                            all[i as int],
                            crate::page_table::slot(to_addr@, i as int),
                            measure_preserve,
                            Err(e),
                        ));
                        assert(start.donation_stopped(
                            *self,
                            phys0,
                            phys@,
                            all,
                            to_addr@,
                            measure_preserve,
                            i as int,
                            e,
                        ));
                    }
                    return Err(e);
                },
            }
            proof {
                let next = frames.take(i + 1);
                if measure_preserve {
                    assert(logged_seq(start.spec_measurement().log(), to_addr@, next)
                        =~= logged_seq(
                        start.spec_measurement().log(),
                        to_addr@,
                        frames.take(i as int),
                    ).push((gpa, next.last())));
                }
                let done = all.take(i + 1);
                assert(done.drop_last() =~= all.take(i as int));
                assert(done.last() == all[i as int]);
                assert(before.donated_page(
                    *self,
                    phys_before,
                    phys@,
                    done.last(),
                    crate::page_table::slot(to_addr@, done.len() - 1),
                    measure_preserve,
                    Ok(()),
                ));
                assert(start.donated_all(*self, phys0, phys@, done, to_addr@, measure_preserve));
                remaining = remaining.skip(1);
                assert(remaining =~= all.skip(i + 1));
            }
            i = i + 1;
        }
    }
}

/// One call that adds a page to a guest while it is set up: a page of its
/// initial image, or a page of zeroes.
pub enum BuildStep {
    Data { gpa: u64, frame: u64 },
    Zero { gpa: u64, frame: u64 },
}

/// The log of a measurement after one call: `add_data_page` appends the
/// page to it, `add_zero_page` leaves it as it is.
pub open spec fn log_after_step(log: Seq<(u64, u64)>, step: BuildStep) -> Seq<(u64, u64)> {
    match step {
        BuildStep::Data { gpa, frame } => log.push((gpa, frame)),
        BuildStep::Zero { .. } => log,
    }
}

/// The log of a measurement after a sequence of calls.
pub open spec fn log_after(log: Seq<(u64, u64)>, steps: Seq<BuildStep>) -> Seq<(u64, u64)>
    decreases steps.len(),
{
    if steps.len() == 0 {
        log
    } else {
        log_after_step(log_after(log, steps.drop_last()), steps.last())
    }
}

/// The pages of the calls among `steps` that add a page of the initial
/// image, in the order of the calls.
pub open spec fn data_pages(steps: Seq<BuildStep>) -> Seq<(u64, u64)> {
    steps.filter(|s: BuildStep| s is Data).map_values(
        |s: BuildStep| (s->Data_gpa, s->Data_frame),
    )
}

/// Whatever sequence of pages of the initial image and pages of zeroes is
/// added to a guest, its measurement is that of the pages of the initial
/// image alone, in the order in which they were added.
pub proof fn lemma_measurement_is_fold(log: Seq<(u64, u64)>, steps: Seq<BuildStep>)
    ensures
        log_after(log, steps) == log + data_pages(steps),
    decreases steps.len(),
{
    let is_data = |s: BuildStep| s is Data;
    let page_of = |s: BuildStep| (s->Data_gpa, s->Data_frame);
    if steps.len() == 0 {
        assert(steps.filter(is_data) =~= Seq::<BuildStep>::empty()) by {
            reveal(Seq::filter);
        }
        assert(log + data_pages(steps) =~= log);
    } else {
        let before = steps.drop_last();
        let last = steps.last();
        lemma_measurement_is_fold(log, before);
        assert(before.push(last) =~= steps);
        before.lemma_filter_push(last, is_data);
        if last is Data {
            assert(before.filter(is_data).push(last).map_values(page_of) =~= before.filter(
                is_data,
            ).map_values(page_of).push(page_of(last)));
            assert(log + data_pages(before).push(page_of(last)) =~= (log + data_pages(
                before,
            )).push(page_of(last)));
        }
    }
}

} // verus!
