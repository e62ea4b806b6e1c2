//! The directory of physical frames: who owns each frame, through which chain
//! of donations, and which guests are alive.

use crate::hyp_alloc::{frames_from, HypPageAlloc, PageRange};
use crate::page::{is_aligned, lemma_size_4k, AlignedPageAddr4k, PageOwnerId, PAGE_SIZE_4K};
use vstd::prelude::*;

verus! {

/// The deepest chain of donations that a frame can go through: hypervisor,
/// host, guest, nested guest.
pub const MAX_PAGE_OWNERS: usize = 4;

/// The number of guests that can be alive at once.
pub const MAX_ACTIVE_GUESTS: usize = 32;

/// Why the directory refused an operation.
#[derive(Clone, Copy, Debug, PartialEq, Eq, Structural)]
pub enum PageTrackingError {
    /// Every owner id has been handed out.
    IdExhausted,
    /// `MAX_ACTIVE_GUESTS` guests are alive already.
    TooManyGuests,
    /// The directory does not track a frame at that address.
    InvalidAddr,
    /// The frame's chain of owners is `MAX_PAGE_OWNERS` long already.
    OwnerStackFull,
    /// Only the hypervisor is left on the frame's chain of owners.
    EmptyStack,
}

/// What the directory records, as mathematical values.
pub struct PhysPagesView {
    /// For the address of each tracked frame its chain of owners, the
    /// hypervisor first and the current owner last.
    pub owners: Map<u64, Seq<PageOwnerId>>,
    /// The guests that are alive.
    pub active: Set<PageOwnerId>,
    /// The raw id that the next guest gets.
    pub next_id: u64,
}

impl PhysPagesView {
    /// Whether the directory tracks a frame at `addr`.
    pub open spec fn tracks(self, addr: u64) -> bool {
        self.owners.dom().contains(addr)
    }

    /// The current owner of the tracked frame at `addr`.
    pub open spec fn owner(self, addr: u64) -> PageOwnerId {
        self.owners[addr].last()
    }

    /// The invariant of the directory: every tracked frame has a chain of
    /// owners that starts with the hypervisor and is at most
    /// `MAX_PAGE_OWNERS` long, and the guests alive are finitely many, each
    /// with an id that was handed out before.
    pub open spec fn wf(self) -> bool {
        &&& forall|addr: u64| #[trigger]
            self.owners.dom().contains(addr) ==> {
                &&& is_aligned(addr as int, PAGE_SIZE_4K as int)
                &&& 1 <= self.owners[addr].len() <= MAX_PAGE_OWNERS
                &&& self.owners[addr][0] == PageOwnerId::spec_hypervisor()
            }
        &&& self.active.finite()
        &&& self.active.len() <= MAX_ACTIVE_GUESTS
        &&& forall|id: PageOwnerId| #[trigger]
            self.active.contains(id) ==> 2 <= id.spec_raw() < self.next_id
        &&& self.next_id >= 2
    }

    /// What `set_page_owner` answers.
    pub open spec fn push_result(self, addr: u64) -> Result<(), PageTrackingError> {
        if !self.tracks(addr) {
            Err(PageTrackingError::InvalidAddr)
        } else if self.owners[addr].len() >= MAX_PAGE_OWNERS {
            Err(PageTrackingError::OwnerStackFull)
        } else {
            Ok(())
        }
    }

    /// The directory after `owner` has been put on top of the chain of the
    /// frame at `addr`.
    pub open spec fn pushed(self, addr: u64, owner: PageOwnerId) -> Self {
        PhysPagesView { owners: self.owners.insert(addr, self.owners[addr].push(owner)), ..self }
    }

    /// What `pop_owner` answers: the owner that it takes off the chain.
    pub open spec fn pop_result(self, addr: u64) -> Result<PageOwnerId, PageTrackingError> {
        if !self.tracks(addr) {
            Err(PageTrackingError::InvalidAddr)
        } else if self.owners[addr].len() <= 1 {
            Err(PageTrackingError::EmptyStack)
        } else {
            Ok(self.owners[addr].last())
        }
    }

    /// The directory after the top of the chain of the frame at `addr` has
    /// been taken off.
    pub open spec fn popped(self, addr: u64) -> Self {
        PhysPagesView { owners: self.owners.insert(addr, self.owners[addr].drop_last()), ..self }
    }

    /// What `add_active_guest` answers: the id of the new guest.
    pub open spec fn guest_result(self) -> Result<PageOwnerId, PageTrackingError> {
        if self.next_id == u64::MAX {
            Err(PageTrackingError::IdExhausted)
        } else if self.active.len() >= MAX_ACTIVE_GUESTS {
            Err(PageTrackingError::TooManyGuests)
        } else {
            Ok(PageOwnerId::from_raw(self.next_id))
        }
    }

    /// The directory after a new guest has come alive.
    pub open spec fn with_guest(self) -> Self {
        PhysPagesView {
            active: self.active.insert(PageOwnerId::from_raw(self.next_id)),
            next_id: (self.next_id + 1) as u64,
            ..self
        }
    }

    /// The directory after the guest `id` has gone.
    pub open spec fn without_guest(self, id: PageOwnerId) -> Self {
        PhysPagesView { active: self.active.remove(id), ..self }
    }

    /// Every tracked frame has an owner, and at the bottom of its chain of
    /// owners is the hypervisor.
    pub proof fn lemma_rooted_in_hypervisor(self, addr: u64)
        requires
            self.wf(),
            self.tracks(addr),
        ensures
            self.owners[addr].len() >= 1,
            self.owners[addr][0] == PageOwnerId::spec_hypervisor(),
    {
    }

    /// Giving a frame a new owner keeps the invariant, and the hypervisor at
    /// the bottom of every chain.
    pub proof fn lemma_pushed_wf(self, addr: u64, owner: PageOwnerId)
        requires
            self.wf(),
            self.push_result(addr) is Ok,
        ensures
            self.pushed(addr, owner).wf(),
            self.pushed(addr, owner).owner(addr) == owner,
            self.pushed(addr, owner).popped(addr) == self,
            self.pushed(addr, owner).pop_result(addr) == Ok::<PageOwnerId, PageTrackingError>(
                owner,
            ),
    {
        let after = self.pushed(addr, owner);
        assert forall|a: u64| #[trigger] after.owners.dom().contains(a) implies {
            &&& is_aligned(a as int, PAGE_SIZE_4K as int)
            &&& 1 <= after.owners[a].len() <= MAX_PAGE_OWNERS
            &&& after.owners[a][0] == PageOwnerId::spec_hypervisor()
        } by {
            assert(self.owners.dom().contains(a));
        }
        assert(self.owners[addr].push(owner).drop_last() =~= self.owners[addr]);
        assert(after.popped(addr).owners =~= self.owners);
    }

    /// Taking the current owner off a frame keeps the invariant: the bottom
    /// of the chain is never taken off.
    pub proof fn lemma_popped_wf(self, addr: u64)
        requires
            self.wf(),
            self.pop_result(addr) is Ok,
        ensures
            self.popped(addr).wf(),
            self.popped(addr).owners[addr].len() == self.owners[addr].len() - 1,
            self.popped(addr).owner(addr) == self.owners[addr][self.owners[addr].len() - 2],
    {
        let after = self.popped(addr);
        assert forall|a: u64| #[trigger] after.owners.dom().contains(a) implies {
            &&& is_aligned(a as int, PAGE_SIZE_4K as int)
            &&& 1 <= after.owners[a].len() <= MAX_PAGE_OWNERS
            &&& after.owners[a][0] == PageOwnerId::spec_hypervisor()
        } by {
            assert(self.owners.dom().contains(a));
        }
    }

    /// A new guest gets an id that no guest alive has, and that is neither
    /// the hypervisor's nor the host's.
    pub proof fn lemma_with_guest_wf(self)
        requires
            self.wf(),
            self.guest_result() is Ok,
        ensures
            self.with_guest().wf(),
            !self.active.contains(self.guest_result()->Ok_0),
            self.guest_result()->Ok_0 != PageOwnerId::spec_hypervisor(),
            self.guest_result()->Ok_0 != PageOwnerId::spec_host(),
    {
        broadcast use PageOwnerId::lemma_from_raw;

        let id = PageOwnerId::from_raw(self.next_id);
        let after = self.with_guest();
        assert forall|g: PageOwnerId| #[trigger] after.active.contains(g) implies 2 <= g.spec_raw()
            < after.next_id by {
            if g != id {
                assert(self.active.contains(g));
            }
        }
    }

    /// When a guest goes, it leaves the set of the guests alive, and nothing
    /// else changes; when it goes a second time, nothing changes at all.
    pub proof fn lemma_without_guest(self, id: PageOwnerId)
        requires
            self.wf(),
        ensures
            self.without_guest(id).wf(),
            !self.without_guest(id).active.contains(id),
            self.active.contains(id) ==> self.without_guest(id).active.len() == self.active.len()
                - 1,
            self.without_guest(id).without_guest(id) == self.without_guest(id),
    {
        let after = self.without_guest(id);
        assert forall|g: PageOwnerId| #[trigger] after.active.contains(g) implies 2 <= g.spec_raw()
            < after.next_id by {
            assert(self.active.contains(g));
        }
        assert(after.active.remove(id) =~= after.active);
    }
}

/// The directory of physical frames. It tracks the frames of one contiguous
/// region of memory.
#[derive(Debug)]
pub struct PhysPages {
    /// The address of the first tracked frame.
    base: u64,
    /// For each tracked frame, in the order of their addresses, its chain of
    /// owners.
    stacks: Vec<Vec<PageOwnerId>>,
    active_guests: Vec<PageOwnerId>,
    next_owner_id: u64,
}

impl View for PhysPages {
    type V = PhysPagesView;

    closed spec fn view(&self) -> PhysPagesView {
        PhysPagesView {
            owners: Map::new(
                |addr: u64| self.index_of(addr) is Some,
                |addr: u64| self.stacks@[self.index_of(addr)->Some_0]@,
            ),
            active: self.active_guests@.to_set(),
            next_id: self.next_owner_id,
        }
    }
}

impl PhysPages {
    /// The place in `stacks` of the frame at `addr`, if it is tracked.
    spec fn index_of(&self, addr: u64) -> Option<int> {
        if addr >= self.base && (addr - self.base) % (PAGE_SIZE_4K as int) == 0 && (addr
            - self.base) / (PAGE_SIZE_4K as int) < self.stacks@.len() {
            Some((addr - self.base) / (PAGE_SIZE_4K as int))
        } else {
            None
        }
    }

    #[verifier::type_invariant]
    spec fn inv(self) -> bool {
        &&& is_aligned(self.base as int, PAGE_SIZE_4K as int)
        &&& self.base + self.stacks@.len() * PAGE_SIZE_4K <= u64::MAX
        &&& forall|j: int|
            0 <= j < self.stacks@.len() ==> {
                &&& 1 <= (#[trigger] self.stacks@[j])@.len() <= MAX_PAGE_OWNERS
                &&& self.stacks@[j]@[0] == PageOwnerId::spec_hypervisor()
            }
        &&& self.active_guests@.no_duplicates()
        &&& self.active_guests@.len() <= MAX_ACTIVE_GUESTS
        &&& forall|k: int|
            0 <= k < self.active_guests@.len() ==> 2 <= (#[trigger] self.active_guests@[k]).spec_raw()
                < self.next_owner_id
        &&& self.next_owner_id >= 2
    }

    /// What the directory records meets the invariant of the view.
    proof fn lemma_view_wf(self)
        requires
            self.inv(),
        ensures
            self@.wf(),
            self@.active.len() == self.active_guests@.len(),
    {
        broadcast use vstd::seq_lib::seq_to_set_is_finite;

        self.active_guests@.unique_seq_to_set();
        assert forall|addr: u64| #[trigger] self@.owners.dom().contains(addr) implies {
            &&& is_aligned(addr as int, PAGE_SIZE_4K as int)
            &&& 1 <= self@.owners[addr].len() <= MAX_PAGE_OWNERS
            &&& self@.owners[addr][0] == PageOwnerId::spec_hypervisor()
        } by {
            let j = self.index_of(addr)->Some_0;
            assert(1 <= self.stacks@[j]@.len());
        }
        assert forall|id: PageOwnerId| #[trigger] self@.active.contains(id) implies 2
            <= id.spec_raw() < self@.next_id by {
            let k = choose|k: int| 0 <= k < self.active_guests@.len() && self.active_guests@[k] == id;
            assert(2 <= self.active_guests@[k].spec_raw());
        }
    }

    /// The address of the first tracked frame, in specifications.
    pub closed spec fn spec_base(&self) -> u64 {
        self.base
    }

    /// The number of tracked frames, in specifications.
    pub closed spec fn spec_num_pages(&self) -> nat {
        self.stacks@.len()
    }

    /// The tracked frames are the 4 KiB frames of one region.
    pub proof fn lemma_tracked_range(&self, addr: u64)
        ensures
            self@.tracks(addr) <==> {
                &&& self.spec_base() <= addr < self.spec_base() + self.spec_num_pages()
                    * PAGE_SIZE_4K
                &&& is_aligned(addr - self.spec_base(), PAGE_SIZE_4K as int)
            },
    {
        if addr >= self.base {
            let d = addr - self.base;
            let n = self.stacks@.len() as int;
            assert(d % 4096 == 0 ==> (d / 4096 < n <==> d < n * 4096));
        }
    }

    /// Whether nobody but the hypervisor owns a frame and no guest is alive:
    /// the state of a directory that was just made.
    pub open spec fn pristine(&self) -> bool {
        &&& self@.wf()
        &&& self@.active == Set::<PageOwnerId>::empty()
        &&& self@.next_id == 2
        &&& forall|addr: u64| #[trigger]
            self@.tracks(addr) ==> self@.owners[addr] == seq![PageOwnerId::spec_hypervisor()]
    }

    /// A directory of the `num_pages` frames from `base` on, all of them
    /// owned by the hypervisor, with no guest alive.
    fn build(base: u64, num_pages: u64) -> (r: Self)
        requires
            is_aligned(base as int, PAGE_SIZE_4K as int),
            base + num_pages * PAGE_SIZE_4K <= u64::MAX,
        ensures
            r.spec_base() == base,
            r.spec_num_pages() == num_pages,
            r.pristine(),
    {
        let mut stacks: Vec<Vec<PageOwnerId>> = Vec::new();
        let mut i: u64 = 0;
        while i < num_pages
            invariant
                i <= num_pages,
                stacks@.len() == i,
                forall|j: int|
                    0 <= j < i ==> (#[trigger] stacks@[j])@ == seq![PageOwnerId::spec_hypervisor()],
            decreases num_pages - i,
        {
            let mut stack: Vec<PageOwnerId> = Vec::new();
            stack.push(PageOwnerId::hypervisor());
            assert(stack@ =~= seq![PageOwnerId::spec_hypervisor()]);
            stacks.push(stack);
            i = i + 1;
        }
        let active_guests: Vec<PageOwnerId> = Vec::new();
        let phys = PhysPages { base, stacks, active_guests, next_owner_id: 2 };
        proof {
            phys.lemma_view_wf();
            assert(phys@.active =~= Set::<PageOwnerId>::empty());
            assert forall|addr: u64| #[trigger] phys@.tracks(addr) implies phys@.owners[addr]
                == seq![PageOwnerId::spec_hypervisor()] by {
                let j = phys.index_of(addr)->Some_0;
                assert(phys.stacks@[j]@ == seq![PageOwnerId::spec_hypervisor()]);
            }
        }
        phys
    }

    /// A directory of the `num_pages` frames from `base` on, all of them
    /// owned by the hypervisor, with no guest alive. `None` if the region
    /// does not lie below the top of the 64-bit address space.
    pub fn new(base: AlignedPageAddr4k, num_pages: u64) -> (r: Option<Self>)
        ensures
            r is Some <==> base@ + num_pages * PAGE_SIZE_4K <= u64::MAX,
            r matches Some(p) ==> {
                &&& p.spec_base() == base@
                &&& p.spec_num_pages() == num_pages
                &&& p.pristine()
            },
    {
        proof {
            lemma_size_4k();
        }
        if base.checked_add_pages(num_pages).is_none() {
            return None;
        }
        Some(Self::build(base.bits(), num_pages))
    }

    /// The directory of all the frames of the region of `hyp_mem`, and, as
    /// ranges of pages, the frames that `hyp_mem` had left from the first on
    /// that is aligned to `host_alignment`, a positive multiple of 4 KiB:
    /// the memory for the host.
    pub fn from(hyp_mem: HypPageAlloc, host_alignment: u64) -> (r: (Self, Vec<PageRange>))
        requires
            host_alignment > 0,
            is_aligned(host_alignment as int, PAGE_SIZE_4K as int),
        ensures
            r.0.spec_base() == hyp_mem.spec_base(),
            r.0.spec_num_pages() == hyp_mem.spec_num_pages(),
            r.0.pristine(),
            is_aligned(
                hyp_mem.next_addr() + hyp_mem.spec_pages_to_skip(host_alignment) * PAGE_SIZE_4K,
                host_alignment as int,
            ),
            hyp_mem.spec_pages_to_skip(host_alignment) >= hyp_mem.spec_free_pages() ==> r.1@.len()
                == 0,
            hyp_mem.spec_pages_to_skip(host_alignment) < hyp_mem.spec_free_pages() ==> {
                &&& r.1@.len() == 1
                &&& r.1@[0]@ == frames_from(
                    (hyp_mem.next_addr() + hyp_mem.spec_pages_to_skip(host_alignment)
                        * PAGE_SIZE_4K) as u64,
                    (hyp_mem.spec_free_pages() - hyp_mem.spec_pages_to_skip(host_alignment)) as nat,
                )
            },
    {
        let mut hyp_mem = hyp_mem;
        let ranges = hyp_mem.take_rest(host_alignment);
        let phys = Self::build(hyp_mem.base(), hyp_mem.num_pages());
        (phys, ranges)
    }

    /// The place in `stacks` of the frame at `addr`, if it is tracked.
    fn find(&self, addr: AlignedPageAddr4k) -> (r: Option<usize>)
        ensures
            r is Some <==> self@.tracks(addr@),
            r matches Some(i) ==> self.index_of(addr@) == Some(i as int) && i < self.stacks@.len(),
    {
        proof {
            use_type_invariant(self);
        }
        proof {
            lemma_size_4k();
        }
        let a = addr.bits();
        if a < self.base {
            return None;
        }
        let idx = (a - self.base) / PAGE_SIZE_4K;
        if idx < self.stacks.len() as u64 {
            Some(idx as usize)
        } else {
            None
        }
    }

    /// The invariant holds of every directory. This does nothing when run.
    pub fn check(&self)
        ensures
            self@.wf(),
    {
        proof {
            use_type_invariant(self);
            self.lemma_view_wf();
        }
    }

    /// Whether the directory tracks the frame at `addr`.
    pub fn tracks(&self, addr: AlignedPageAddr4k) -> (r: bool)
        ensures
            r == self@.tracks(addr@),
            self@.wf(),
    {
        proof {
            use_type_invariant(self);
            self.lemma_view_wf();
        }
        self.find(addr).is_some()
    }

    /// The current owner of the frame at `addr`, if the frame is tracked.
    pub fn owner(&self, addr: AlignedPageAddr4k) -> (r: Option<PageOwnerId>)
        ensures
            r is Some <==> self@.tracks(addr@),
            r matches Some(id) ==> id == self@.owner(addr@),
            self@.wf(),
    {
        proof {
            use_type_invariant(self);
            self.lemma_view_wf();
        }
        match self.find(addr) {
            Some(i) => {
                assert(self@.owners.dom().contains(addr@));
                let stack = &self.stacks[i];
                Some(stack[stack.len() - 1])
            },
            None => None,
        }
    }

    /// The length of the chain of owners of the frame at `addr`, if the frame
    /// is tracked.
    pub fn owner_depth(&self, addr: AlignedPageAddr4k) -> (r: Option<usize>)
        ensures
            r is Some <==> self@.tracks(addr@),
            r matches Some(n) ==> n == self@.owners[addr@].len(),
            self@.wf(),
    {
        proof {
            use_type_invariant(self);
            self.lemma_view_wf();
        }
        match self.find(addr) {
            Some(i) => Some(self.stacks[i].len()),
            None => None,
        }
    }

    /// Whether the guest `id` is alive.
    pub fn is_active_guest(&self, id: PageOwnerId) -> (r: bool)
        ensures
            r == self@.active.contains(id),
            self@.wf(),
    {
        proof {
            use_type_invariant(self);
            self.lemma_view_wf();
        }
        self.position(id).is_some()
    }

    /// The place of `id` among the guests alive.
    fn position(&self, id: PageOwnerId) -> (r: Option<usize>)
        ensures
            r is Some <==> self.active_guests@.contains(id),
            r matches Some(i) ==> i < self.active_guests@.len() && self.active_guests@[i as int]
                == id,
    {
        let mut i: usize = 0;
        while i < self.active_guests.len()
            invariant
                i <= self.active_guests@.len(),
                forall|j: int| 0 <= j < i ==> self.active_guests@[j] != id,
            decreases self.active_guests@.len() - i,
        {
            if self.active_guests[i] == id {
                return Some(i);
            }
            i = i + 1;
        }
        None
    }

    /// Brings a new guest alive and hands out its id, which no owner had
    /// before. On an error nothing changes.
    pub fn add_active_guest(&mut self) -> (r: Result<PageOwnerId, PageTrackingError>)
        ensures
            r == old(self)@.guest_result(),
            r is Ok ==> final(self)@ == old(self)@.with_guest(),
            r is Err ==> final(self)@ == old(self)@,
            old(self)@.wf(),
            final(self)@.wf(),
    {
        proof {
            use_type_invariant(&*self);
            self.lemma_view_wf();
        }
        if self.next_owner_id == u64::MAX {
            return Err(PageTrackingError::IdExhausted);
        }
        if self.active_guests.len() >= MAX_ACTIVE_GUESTS {
            return Err(PageTrackingError::TooManyGuests);
        }
        let id = match PageOwnerId::new(self.next_owner_id) {
            Some(id) => id,
            None => {
                return Err(PageTrackingError::IdExhausted);
            },
        };
        let ghost before = *self;
        proof {
            broadcast use PageOwnerId::lemma_from_raw;

            self.active_guests@.lemma_push_to_set_commute(id);
            assert(!self.active_guests@.contains(id)) by {
                if self.active_guests@.contains(id) {
                    let k = choose|k: int|
                        0 <= k < self.active_guests@.len() && self.active_guests@[k] == id;
                    assert(self.active_guests@[k].spec_raw() < self.next_owner_id);
                }
            }
            assert(self.active_guests@.push(id).no_duplicates());
        }
        let mut guests: Vec<PageOwnerId> = Vec::new();
        core::mem::swap(&mut guests, &mut self.active_guests);
        guests.push(id);
        self.next_owner_id = self.next_owner_id + 1;
        core::mem::swap(&mut guests, &mut self.active_guests);
        proof {
            use_type_invariant(&*self);
            self.lemma_view_wf();
            assert(self@.owners =~= before@.owners);
        }
        Ok(id)
    }

    /// Takes the guest `id` out of the set of the guests alive. The frames
    /// that it still owns stay as they are: whoever holds them has to give
    /// them back.
    pub fn rm_active_guest(&mut self, id: PageOwnerId)
        ensures
            final(self)@ == old(self)@.without_guest(id),
            old(self)@.wf(),
            final(self)@.wf(),
    {
        proof {
            use_type_invariant(&*self);
            self.lemma_view_wf();
        }
        let ghost before = *self;
        match self.position(id) {
            Some(i) => {
                proof {
                    lemma_remove_unique(self.active_guests@, i as int);
                }
                let mut guests: Vec<PageOwnerId> = Vec::new();
                core::mem::swap(&mut guests, &mut self.active_guests);
                guests.remove(i);
                core::mem::swap(&mut guests, &mut self.active_guests);
                proof {
                    use_type_invariant(&*self);
                    self.lemma_view_wf();
                    assert(self@.owners =~= before@.owners);
                }
            },
            None => {
                assert(before@.active.remove(id) =~= before@.active);
            },
        }
    }

    /// Makes `owner` the current owner of the frame at `addr`, on top of the
    /// owners it had. On an error nothing changes.
    pub fn set_page_owner(&mut self, addr: AlignedPageAddr4k, owner: PageOwnerId) -> (r: Result<
        (),
        PageTrackingError,
    >)
        ensures
            r == old(self)@.push_result(addr@),
            r is Ok ==> final(self)@ == old(self)@.pushed(addr@, owner),
            r is Err ==> final(self)@ == old(self)@,
            old(self)@.wf(),
            final(self)@.wf(),
    {
        proof {
            use_type_invariant(&*self);
            self.lemma_view_wf();
        }
        let i = match self.find(addr) {
            Some(i) => i,
            None => {
                return Err(PageTrackingError::InvalidAddr);
            },
        };
        assert(self@.owners.dom().contains(addr@));
        if self.stacks[i].len() >= MAX_PAGE_OWNERS {
            return Err(PageTrackingError::OwnerStackFull);
        }
        let ghost before = *self;
        let mut stacks: Vec<Vec<PageOwnerId>> = Vec::new();
        core::mem::swap(&mut stacks, &mut self.stacks);
        stacks[i].push(owner);
        core::mem::swap(&mut stacks, &mut self.stacks);
        proof {
            use_type_invariant(&*self);
            self.lemma_view_wf();
            self.lemma_updated(before, addr@, i as int);
            assert(self@.owners =~= before@.pushed(addr@, owner).owners);
        }
        Ok(())
    }

    /// Takes the current owner off the frame at `addr` and returns it: the
    /// frame goes back to the owner it had before. The hypervisor, at the
    /// bottom of every chain, is never taken off. On an error nothing
    /// changes.
    pub fn pop_owner(&mut self, addr: AlignedPageAddr4k) -> (r: Result<
        PageOwnerId,
        PageTrackingError,
    >)
        ensures
            r == old(self)@.pop_result(addr@),
            r is Ok ==> final(self)@ == old(self)@.popped(addr@),
            r is Err ==> final(self)@ == old(self)@,
            old(self)@.wf(),
            final(self)@.wf(),
    {
        proof {
            use_type_invariant(&*self);
            self.lemma_view_wf();
        }
        let i = match self.find(addr) {
            Some(i) => i,
            None => {
                return Err(PageTrackingError::InvalidAddr);
            },
        };
        assert(self@.owners.dom().contains(addr@));
        if self.stacks[i].len() <= 1 {
            return Err(PageTrackingError::EmptyStack);
        }
        let ghost before = *self;
        let mut stacks: Vec<Vec<PageOwnerId>> = Vec::new();
        core::mem::swap(&mut stacks, &mut self.stacks);
        let top = stacks[i].pop();
        core::mem::swap(&mut stacks, &mut self.stacks);
        proof {
            use_type_invariant(&*self);
            self.lemma_view_wf();
            self.lemma_updated(before, addr@, i as int);
            assert(self.stacks@[i as int]@ =~= before@.owners[addr@].drop_last());
            assert(self@.owners =~= before@.popped(addr@).owners);
        }
        match top {
            Some(id) => Ok(id),
            None => Err(PageTrackingError::EmptyStack),
        }
    }

    /// A directory that differs from `before` in the chain of one frame only
    /// records the same as `before` for every other frame.
    proof fn lemma_updated(self, before: Self, addr: u64, i: int)
        requires
            before.index_of(addr) == Some(i),
            self.base == before.base,
            self.active_guests == before.active_guests,
            self.next_owner_id == before.next_owner_id,
            self.stacks@.len() == before.stacks@.len(),
            forall|j: int|
                0 <= j < before.stacks@.len() && j != i ==> self.stacks@[j] == before.stacks@[j],
        ensures
            self@.owners.dom() == before@.owners.dom(),
            self@.owners[addr] == self.stacks@[i]@,
            forall|a: u64|
                before@.owners.dom().contains(a) && a != addr ==> #[trigger] self@.owners[a]
                    == before@.owners[a],
            self@.active == before@.active,
            self@.next_id == before@.next_id,
    {
        assert(self@.owners.dom() =~= before@.owners.dom()) by {
            assert forall|a: u64|
                self@.owners.dom().contains(a) <==> before@.owners.dom().contains(a) by {
                assert((self.index_of(a) is Some) <==> (before.index_of(a) is Some));
            }
        }
        assert forall|a: u64| before@.owners.dom().contains(a) && a != addr implies #[trigger]
            self@.owners[a] == before@.owners[a] by {
            let j = before.index_of(a)->Some_0;
            assert(self.index_of(a) == Some(j));
            if j == i {
                assert((a - self.base) == (addr - self.base));
            }
        }
    }
}

/// Taking one element out of a sequence without duplicates leaves a sequence
/// without duplicates, which holds every other element and not that one.
proof fn lemma_remove_unique<A>(s: Seq<A>, i: int)
    requires
        s.no_duplicates(),
        0 <= i < s.len(),
    ensures
        s.remove(i).no_duplicates(),
        s.remove(i).to_set() == s.to_set().remove(s[i]),
{
    let r = s.remove(i);
    assert forall|a: int, b: int| 0 <= a < r.len() && 0 <= b < r.len() && a != b implies r[a]
        != r[b] by {
        let a0 = if a < i { a } else { a + 1 };
        let b0 = if b < i { b } else { b + 1 };
        assert(r[a] == s[a0] && r[b] == s[b0]);
    }
    assert forall|x: A| r.to_set().contains(x) <==> s.to_set().remove(s[i]).contains(x) by {
        if r.contains(x) {
            let k = choose|k: int| 0 <= k < r.len() && r[k] == x;
            let k0 = if k < i { k } else { k + 1 };
            assert(s[k0] == x);
        }
        if s.contains(x) && x != s[i] {
            let k = choose|k: int| 0 <= k < s.len() && s[k] == x;
            let k0 = if k < i { k } else { k - 1 };
            assert(r[k0] == x);
        }
    }
    assert(r.to_set() =~= s.to_set().remove(s[i]));
}

} // verus!
