//! The builder of the host at boot.

use crate::hyp_alloc::{frames_from, HypPageAlloc, PageRange};
use crate::measure::DataMeasure;
use crate::page::{
    is_aligned, lemma_size_4k, AlignedPageAddr4k, Page, Page4k, PageOwnerId, PageSize, PageSize4k,
    PAGE_SIZE_4K,
};
use crate::page_table::{map_outcome, mapping_to, nodes_taken, Mapping, PlatformPageTable};
use crate::page_tracking::{PhysPages, PhysPagesView};
use crate::sequential_pages::SequentialPages;
use crate::guest_builder::map_result;
use crate::vec_util::{lemma_reverse_step, reversed};
use crate::vm_pages::{logged_seq, mapped_seq, pushed_all, Error, VmPages, GUEST_ROOT_PAGES};
use vstd::prelude::*;

verus! {

/// The pages of the host, as its builder set them up.
pub struct HostRootPages<T: PlatformPageTable, D: DataMeasure> {
    inner: VmPages<T, D>,
}

impl<T: PlatformPageTable, D: DataMeasure> HostRootPages<T, D> {
    /// The pages of the host, in specifications.
    pub closed spec fn spec_inner(&self) -> VmPages<T, D> {
        self.inner
    }

    /// The pages of the host.
    pub fn into_inner(self) -> (r: VmPages<T, D>)
        ensures
            r == self.spec_inner(),
    {
        self.inner
    }
}

/// Whether a guest address and a frame address agree in the bits below
/// `align`, a power of two: they lie at the same place within a chunk of
/// `align` bytes.
pub open spec fn congruent(gpa: u64, frame: u64, align: u64) -> bool {
    gpa & ((align - 1) as u64) == frame & ((align - 1) as u64)
}

/// Sets up the pages of the host at boot: its page table, the pages that the
/// table takes its interior nodes from, and its measurement.
///
/// The host sees its memory at guest addresses that agree with the
/// addresses of the frames in the bits below `T::TOP_LEVEL_ALIGN`.
pub struct HostRootBuilder<T: PlatformPageTable, D: DataMeasure> {
    root: T,
    pte_pages: PageRange,
    measurement: D,
}

impl<T: PlatformPageTable, D: DataMeasure> HostRootBuilder<T, D> {
    /// The page table of the host, in specifications.
    pub closed spec fn spec_root(&self) -> T {
        self.root
    }

    /// The measurement of the host, in specifications.
    pub closed spec fn spec_measurement(&self) -> D {
        self.measurement
    }

    /// The frames that are left for the interior nodes of the page table,
    /// the next first.
    pub closed spec fn pte_pending(&self) -> Seq<u64> {
        self.pte_pages@
    }

    /// The number of pages that `from_hyp_mem` sets aside for the interior
    /// nodes of the table of a host with `host_gpa_size` bytes of memory.
    pub open spec fn pte_pages_for(host_gpa_size: u64) -> u64 {
        T::spec_max_pte_pages(host_gpa_size / PAGE_SIZE_4K)
    }

    /// Whether `hyp_mem` has the pages that `from_hyp_mem` takes from it, for
    /// a platform whose root table is of four frames.
    pub open spec fn hyp_mem_suffices(hyp_mem: HypPageAlloc, host_gpa_size: u64) -> bool {
        &&& T::ROOT_PAGES == GUEST_ROOT_PAGES
        &&& hyp_mem.spec_pages_to_skip(T::TOP_LEVEL_ALIGN) + GUEST_ROOT_PAGES
            + Self::pte_pages_for(host_gpa_size) <= hyp_mem.spec_free_pages()
        &&& Self::pte_pages_for(host_gpa_size) <= usize::MAX
    }

    /// The address of the first frame of the root of the host's table, as
    /// `from_hyp_mem` takes it from `hyp_mem`.
    pub open spec fn root_addr(hyp_mem: HypPageAlloc) -> u64 {
        (hyp_mem.next_addr() + hyp_mem.spec_pages_to_skip(T::TOP_LEVEL_ALIGN) * PAGE_SIZE_4K) as u64
    }

    /// The address of the first frame of the memory of the host, as
    /// `from_hyp_mem` leaves it: the first frame aligned to
    /// `T::TOP_LEVEL_ALIGN` above the frames for the root and for the
    /// interior nodes.
    pub open spec fn host_mem_addr(hyp_mem: HypPageAlloc, host_gpa_size: u64) -> int {
        let pte_end = Self::root_addr(hyp_mem) + (GUEST_ROOT_PAGES + Self::pte_pages_for(
            host_gpa_size,
        )) * PAGE_SIZE_4K;
        pte_end + crate::hyp_alloc::frames_to_aligned(pte_end as u64, T::TOP_LEVEL_ALIGN)
            * PAGE_SIZE_4K
    }

    /// The number of frames of the memory of the host: those from
    /// `host_mem_addr` to the end of the region of `hyp_mem`.
    pub open spec fn host_mem_pages(hyp_mem: HypPageAlloc, host_gpa_size: u64) -> int {
        let end = hyp_mem.spec_base() + hyp_mem.spec_num_pages() * PAGE_SIZE_4K;
        if Self::host_mem_addr(hyp_mem, host_gpa_size) < end {
            (end - Self::host_mem_addr(hyp_mem, host_gpa_size)) / (PAGE_SIZE_4K as int)
        } else {
            0
        }
    }

    /// Whether `hyp_mem` has the pages that `from_hyp_mem` takes from it.
    pub fn can_build_from(hyp_mem: &HypPageAlloc, host_gpa_size: u64) -> (r: bool)
        ensures
            r == Self::hyp_mem_suffices(*hyp_mem, host_gpa_size),
    {
        proof {
            T::lemma_top_level_align();
        }
        if T::ROOT_PAGES != GUEST_ROOT_PAGES as u64 {
            return false;
        }
        let num_pte_pages = T::max_pte_pages(host_gpa_size / PAGE_SIZE_4K);
        if num_pte_pages > usize::MAX as u64 {
            return false;
        }
        let free = hyp_mem.free_pages();
        let skip = hyp_mem.pages_to_skip(T::TOP_LEVEL_ALIGN);
        if skip > free || free - skip < GUEST_ROOT_PAGES as u64 {
            return false;
        }
        num_pte_pages <= free - skip - GUEST_ROOT_PAGES as u64
    }

    /// The builder of the host at boot, from the memory that the hypervisor
    /// has not taken for itself.
    ///
    /// Takes four frames aligned to `T::TOP_LEVEL_ALIGN` from `hyp_mem` for
    /// the root of the host's table, then the frames for the interior nodes
    /// of the table of a host with `host_gpa_size` bytes. What `hyp_mem` has
    /// left after that is the memory of the host: it comes back as ranges of
    /// pages, with the directory of all the frames of the machine and the
    /// builder.
    pub fn from_hyp_mem(hyp_mem: HypPageAlloc, host_gpa_size: u64) -> (r: (
        Vec<PageRange>,
        PhysPages,
        Self,
    ))
        requires
            Self::hyp_mem_suffices(hyp_mem, host_gpa_size),
        ensures
            r.2.spec_root().owner() == PageOwnerId::spec_host(),
            r.2.spec_root().entries() == Map::<u64, Mapping>::empty(),
            r.2.spec_root().root_pages() == SequentialPages::<PageSize4k>::spec_new(
                Self::root_addr(hyp_mem),
                4,
            ),
            r.2.spec_root().node_frames() == Seq::<u64>::empty(),
            r.2.spec_measurement().log() == Seq::<(u64, u64)>::empty(),
            r.2.pte_pending() == frames_from(
                (Self::root_addr(hyp_mem) + GUEST_ROOT_PAGES * PAGE_SIZE_4K) as u64,
                Self::pte_pages_for(host_gpa_size) as nat,
            ),
            r.1.spec_base() == hyp_mem.spec_base(),
            r.1.spec_num_pages() == hyp_mem.spec_num_pages(),
            r.1.pristine(),
            is_aligned(Self::host_mem_addr(hyp_mem, host_gpa_size), T::TOP_LEVEL_ALIGN as int),
            Self::host_mem_pages(hyp_mem, host_gpa_size) == 0 ==> r.0@.len() == 0,
            Self::host_mem_pages(hyp_mem, host_gpa_size) > 0 ==> {
                &&& r.0@.len() == 1
                &&& r.0@[0]@ == frames_from(
                    Self::host_mem_addr(hyp_mem, host_gpa_size) as u64,
                    Self::host_mem_pages(hyp_mem, host_gpa_size) as nat,
                )
            },
            forall|i: int, j: int|
                0 <= i < r.0@.len() && 0 <= j < r.0@[i]@.len() ==> {
                    &&& is_aligned((#[trigger] r.0@[i]@[j]) as int, PAGE_SIZE_4K as int)
                    &&& r.1@.tracks(r.0@[i]@[j])
                    &&& r.0@[i]@[j] >= Self::root_addr(hyp_mem) + (GUEST_ROOT_PAGES
                        + Self::pte_pages_for(host_gpa_size)) * PAGE_SIZE_4K
                },
            forall|i: int|
                0 <= i < r.0@.len() ==> is_aligned(
                    #[trigger] r.0@[i]@[0] as int,
                    T::TOP_LEVEL_ALIGN as int,
                ),
    {
        proof {
            T::lemma_top_level_align();
            lemma_size_4k();
        }
        let mut hyp_mem = hyp_mem;
        let ghost mem0 = hyp_mem;
        let _ = hyp_mem.free_pages();
        let root_iter = hyp_mem.take_pages_with_alignment(GUEST_ROOT_PAGES, T::TOP_LEVEL_ALIGN);
        let ghost root_frames = root_iter@;
        let root_vec = root_iter.collect();
        proof {
            let start = Self::root_addr(mem0);
            assert(mem0.spec_base() + mem0.spec_taken() * PAGE_SIZE_4K <= mem0.spec_base()
                + mem0.spec_num_pages() * PAGE_SIZE_4K) by (nonlinear_arith)
                requires
                    mem0.spec_taken() <= mem0.spec_num_pages(),
            ;
            assert((mem0.spec_taken() + mem0.spec_pages_to_skip(T::TOP_LEVEL_ALIGN) + 4)
                * PAGE_SIZE_4K <= mem0.spec_num_pages() * PAGE_SIZE_4K) by (nonlinear_arith)
                requires
                    mem0.spec_taken() + mem0.spec_pages_to_skip(T::TOP_LEVEL_ALIGN) + 4
                        <= mem0.spec_num_pages(),
            ;
            assert(root_frames == frames_from(start, 4));
            assert(crate::page::page_addrs(root_vec@).len() == root_vec@.len());
            assert(root_vec@.len() == 4);
            assert forall|i: int| 0 <= i < 4 implies (#[trigger] root_vec@[i])@ == start + i
                * PAGE_SIZE_4K by {
                assert(crate::page::page_addrs(root_vec@)[i] == root_frames[i]);
                assert((mem0.spec_taken() + mem0.spec_pages_to_skip(T::TOP_LEVEL_ALIGN) + i)
                    * PAGE_SIZE_4K <= (mem0.spec_taken() + mem0.spec_pages_to_skip(
                    T::TOP_LEVEL_ALIGN,
                ) + 4) * PAGE_SIZE_4K) by (nonlinear_arith)
                    requires
                        i < 4,
                ;
            }
            assert forall|i: int| 0 < i < root_vec@.len() implies (#[trigger] root_vec@[i])@
                == root_vec@[i - 1]@ + PageSize4k::SIZE_BYTES by {
                assert(root_vec@[i - 1]@ == start + (i - 1) * PAGE_SIZE_4K);
            }
            assert(SequentialPages::<PageSize4k>::consecutive(root_vec@));
        }
        let root_table_pages = match SequentialPages::from_pages(root_vec) {
            Ok(pages) => pages,
            Err(_) => vstd::pervasive::unreached(),
        };
        let num_pte_pages = T::max_pte_pages(host_gpa_size / PAGE_SIZE_4K);
        let ghost mem1 = hyp_mem;
        let pte_pages = hyp_mem.take_pages(num_pte_pages as usize);
        let ghost mem2 = hyp_mem;
        let (phys_pages, host_pages) = PhysPages::from(hyp_mem, T::TOP_LEVEL_ALIGN);
        proof {
            broadcast use SequentialPages::lemma_spec_new;

        }
        let root = match T::new(root_table_pages, PageOwnerId::host()) {
            Ok(root) => root,
            Err(_) => vstd::pervasive::unreached(),
        };
        proof {
            let start = Self::root_addr(mem0);
            assert(mem1.next_addr() == start + GUEST_ROOT_PAGES * PAGE_SIZE_4K) by (nonlinear_arith)
                requires
                    mem1.spec_base() == mem0.spec_base(),
                    mem1.spec_taken() == mem0.spec_taken() + mem0.spec_pages_to_skip(
                        T::TOP_LEVEL_ALIGN,
                    ) + 4,
                    start == mem0.next_addr() + mem0.spec_pages_to_skip(T::TOP_LEVEL_ALIGN)
                        * PAGE_SIZE_4K,
                    mem0.next_addr() == mem0.spec_base() + mem0.spec_taken() * PAGE_SIZE_4K,
                    mem1.next_addr() == mem1.spec_base() + mem1.spec_taken() * PAGE_SIZE_4K,
                    GUEST_ROOT_PAGES == 4,
            ;
            let pte_end = start + (GUEST_ROOT_PAGES + Self::pte_pages_for(host_gpa_size))
                * PAGE_SIZE_4K;
            let taken2 = mem0.spec_taken() + mem0.spec_pages_to_skip(T::TOP_LEVEL_ALIGN) + 4
                + Self::pte_pages_for(host_gpa_size);
            assert(mem2.spec_taken() == taken2);
            assert(pte_end == mem0.spec_base() + taken2 * PAGE_SIZE_4K) by (nonlinear_arith)
                requires
                    pte_end == start + (4 + Self::pte_pages_for(host_gpa_size)) * PAGE_SIZE_4K,
                    start == mem0.spec_base() + mem0.spec_taken() * PAGE_SIZE_4K
                        + mem0.spec_pages_to_skip(T::TOP_LEVEL_ALIGN) * PAGE_SIZE_4K,
                    taken2 == mem0.spec_taken() + mem0.spec_pages_to_skip(T::TOP_LEVEL_ALIGN) + 4
                        + Self::pte_pages_for(host_gpa_size),
            ;
            assert(taken2 * PAGE_SIZE_4K <= mem0.spec_num_pages() * PAGE_SIZE_4K)
                by (nonlinear_arith)
                requires
                    taken2 <= mem0.spec_num_pages(),
            ;
            assert(mem2.next_addr() == pte_end);
            let skip = mem2.spec_pages_to_skip(T::TOP_LEVEL_ALIGN);
            let free = mem2.spec_free_pages();
            let end = mem0.spec_base() + mem0.spec_num_pages() * PAGE_SIZE_4K;
            let host_addr = Self::host_mem_addr(mem0, host_gpa_size);
            assert(host_addr == pte_end + skip * PAGE_SIZE_4K);
            assert(end - host_addr == (free - skip) * PAGE_SIZE_4K) by (nonlinear_arith)
                requires
                    end == mem0.spec_base() + mem0.spec_num_pages() * PAGE_SIZE_4K,
                    host_addr == pte_end + skip * PAGE_SIZE_4K,
                    pte_end == mem0.spec_base() + taken2 * PAGE_SIZE_4K,
                    free == mem0.spec_num_pages() - taken2,
            ;
            if skip < free {
                assert((free - skip) * PAGE_SIZE_4K > 0) by (nonlinear_arith)
                    requires
                        skip < free,
                ;
                assert(((free - skip) * PAGE_SIZE_4K) / (PAGE_SIZE_4K as int) == free - skip)
                    by (nonlinear_arith)
                    requires
                        PAGE_SIZE_4K == 4096,
                ;
            } else {
                assert((free - skip) * PAGE_SIZE_4K <= 0) by (nonlinear_arith)
                    requires
                        skip >= free,
                ;
            }
            if host_pages@.len() > 0 {
                let first = (mem2.next_addr() + mem2.spec_pages_to_skip(T::TOP_LEVEL_ALIGN)
                    * PAGE_SIZE_4K) as u64;
                let count = (mem2.spec_free_pages() - mem2.spec_pages_to_skip(
                    T::TOP_LEVEL_ALIGN,
                )) as nat;
                let skip2 = mem2.spec_pages_to_skip(T::TOP_LEVEL_ALIGN);
                assert(mem2.spec_taken() * PAGE_SIZE_4K <= mem2.spec_num_pages() * PAGE_SIZE_4K)
                    by (nonlinear_arith)
                    requires
                        mem2.spec_taken() <= mem2.spec_num_pages(),
                ;
                assert(host_pages@[0]@ == frames_from(first, count));
                assert(host_pages@[0]@[0] == first);
                assert forall|j: int| 0 <= j < host_pages@[0]@.len() implies {
                    &&& is_aligned((#[trigger] host_pages@[0]@[j]) as int, PAGE_SIZE_4K as int)
                    &&& phys_pages@.tracks(host_pages@[0]@[j])
                    &&& host_pages@[0]@[j] >= start + (GUEST_ROOT_PAGES + Self::pte_pages_for(
                        host_gpa_size,
                    )) * PAGE_SIZE_4K
                } by {
                    let a = host_pages@[0]@[j];
                    assert((mem2.spec_taken() + skip2 + j) * PAGE_SIZE_4K < mem2.spec_num_pages()
                        * PAGE_SIZE_4K) by (nonlinear_arith)
                        requires
                            mem2.spec_taken() + skip2 + j < mem2.spec_num_pages(),
                            j >= 0,
                    ;
                    assert(a == mem2.spec_base() + (mem2.spec_taken() + skip2 + j) * PAGE_SIZE_4K)
                        by (nonlinear_arith)
                        requires
                            a == first + j * PAGE_SIZE_4K,
                            first == mem2.spec_base() + mem2.spec_taken() * PAGE_SIZE_4K + skip2
                                * PAGE_SIZE_4K,
                    ;
                    crate::page::lemma_aligned_add_multiple(
                        mem2.spec_base() as int,
                        mem2.spec_taken() + skip2 + j,
                        PAGE_SIZE_4K as int,
                    );
                    phys_pages.lemma_tracked_range(a);
                    assert((mem2.spec_taken() + skip2 + j) * PAGE_SIZE_4K >= (mem0.spec_taken()
                        + mem0.spec_pages_to_skip(T::TOP_LEVEL_ALIGN) + 4 + Self::pte_pages_for(
                        host_gpa_size,
                    )) * PAGE_SIZE_4K) by (nonlinear_arith)
                        requires
                            mem2.spec_taken() == mem0.spec_taken() + mem0.spec_pages_to_skip(
                                T::TOP_LEVEL_ALIGN,
                            ) + 4 + Self::pte_pages_for(host_gpa_size),
                            skip2 >= 0,
                            j >= 0,
                    ;
                    assert(start + (GUEST_ROOT_PAGES + Self::pte_pages_for(host_gpa_size))
                        * PAGE_SIZE_4K == mem0.spec_base() + (mem0.spec_taken()
                        + mem0.spec_pages_to_skip(T::TOP_LEVEL_ALIGN) + 4 + Self::pte_pages_for(
                        host_gpa_size,
                    )) * PAGE_SIZE_4K) by (nonlinear_arith)
                        requires
                            start == mem0.spec_base() + mem0.spec_taken() * PAGE_SIZE_4K
                                + mem0.spec_pages_to_skip(T::TOP_LEVEL_ALIGN) * PAGE_SIZE_4K,
                            GUEST_ROOT_PAGES == 4,
                    ;
                }
            }
        }
        (host_pages, phys_pages, Self { root, pte_pages, measurement: D::default() })
    }

    /// Whether `after`, `phys_after` and `r` are what adding `page` at `gpa`
    /// makes of the builder `self` and the directory `phys`. In this order:
    /// the page is measured, if it is to be. Its guest address has to agree
    /// with its frame in the bits below `T::TOP_LEVEL_ALIGN`, or the answer
    /// is `UnalignedVmPages`. The directory has to take the host as
    /// the owner of the page, or the answer is `SettingOwner`. Then the page
    /// table maps the page, or the answer is `Mapping4kPage`.
    pub open spec fn added_page(
        &self,
        after: Self,
        phys: PhysPagesView,
        phys_after: PhysPagesView,
        gpa: u64,
        page: Page4k,
        measured: bool,
        r: Result<(), Error>,
    ) -> bool {
        let owner = self.spec_root().owner();
        let entries = self.spec_root().entries();
        let missing = self.spec_root().missing_nodes(gpa);
        let pending = self.pte_pending();
        &&& after.spec_measurement().log() == if measured {
            self.spec_measurement().log().push((gpa, page@))
        } else {
            self.spec_measurement().log()
        }
        &&& after.spec_root().owner() == owner
        &&& if !congruent(gpa, page@, T::TOP_LEVEL_ALIGN) {
            &&& r == Err::<(), Error>(Error::UnalignedVmPages(page.spec_addr()))
            &&& phys_after == phys
            &&& after.spec_root() == self.spec_root()
            &&& after.pte_pending() == pending
        } else {
            match phys.push_result(page@) {
                Err(e) => {
                    &&& r == Err::<(), Error>(Error::SettingOwner(e))
                    &&& phys_after == phys
                    &&& after.spec_root() == self.spec_root()
                    &&& after.pte_pending() == pending
                },
                Ok(()) => {
                    &&& phys_after == phys.pushed(page@, owner)
                    &&& r == map_result(map_outcome(entries, missing, gpa, page, pending.len()))
                    &&& after.pte_pending() == pending.skip(
                        nodes_taken(entries, missing, gpa, pending.len()) as int,
                    )
                    &&& after.spec_root().node_frames() == self.spec_root().node_frames()
                        + pending.take(nodes_taken(entries, missing, gpa, pending.len()) as int)
                    &&& after.spec_root().root_pages() == self.spec_root().root_pages()
                    &&& r is Ok ==> after.spec_root().entries() == entries.insert(
                        gpa,
                        mapping_to(page@),
                    )
                    &&& r is Err ==> after.spec_root().entries() == entries
                },
            }
        }
    }

    /// Whether `after` and `phys_after` come from the builder `self` and the
    /// directory `phys` by adding each of `pages` in turn, at consecutive
    /// guest pages from `to_addr` on, when every page went in.
    pub open spec fn added_all(
        &self,
        after: Self,
        phys: PhysPagesView,
        phys_after: PhysPagesView,
        to_addr: u64,
        pages: Seq<Page4k>,
        measured: bool,
    ) -> bool
        decreases pages.len(),
    {
        if pages.len() == 0 {
            after == *self && phys_after == phys
        } else {
            &&& to_addr + (pages.len() - 1) * PAGE_SIZE_4K <= u64::MAX
            &&& exists|mid: Self, phys_mid: PhysPagesView|
                {
                    &&& self.added_all(mid, phys, phys_mid, to_addr, pages.drop_last(), measured)
                    &&& #[trigger] mid.added_page(
                        after,
                        phys_mid,
                        phys_after,
                        crate::page_table::slot(to_addr, pages.len() - 1),
                        pages.last(),
                        measured,
                        Ok(()),
                    )
                }
        }
    }

    /// Whether `phys_after` is what is left of the directory `phys` when the
    /// first `k` of `pages` went in and the next one failed with `e`:
    /// because its guest address lies beyond the address space, which is an
    /// `InvalidRange` and changes nothing, or as `added_page` says.
    pub open spec fn adding_stopped(
        &self,
        phys: PhysPagesView,
        phys_after: PhysPagesView,
        to_addr: u64,
        pages: Seq<Page4k>,
        measured: bool,
        k: int,
        e: Error,
    ) -> bool {
        exists|mid: Self, phys_mid: PhysPagesView|
            {
                &&& #[trigger] self.added_all(mid, phys, phys_mid, to_addr, pages.take(k), measured)
                &&& if to_addr + k * PAGE_SIZE_4K > u64::MAX {
                    &&& e == Error::InvalidRange
                    &&& phys_after == phys_mid
                } else {
                    exists|after: Self| #[trigger]
                        mid.added_page(
                            after,
                            phys_mid,
                            phys_after,
                            crate::page_table::slot(to_addr, k),
                            pages[k],
                            measured,
                            Err(e),
                        )
                }
            }
    }

    /// Whether `after` and `phys_after` are what adding `pages` at
    /// consecutive guest pages from `to_addr` on makes of the builder `self`
    /// and the directory `phys`, when every page went in: each page is
    /// owned by the host and mapped, and measured if it was to be.
    pub open spec fn added(
        &self,
        after: Self,
        phys: PhysPagesView,
        phys_after: PhysPagesView,
        to_addr: u64,
        pages: Seq<Page4k>,
        measured: bool,
    ) -> bool {
        let frames = crate::page::page_addrs(pages);
        &&& self.added_all(after, phys, phys_after, to_addr, pages, measured)
        &&& after.spec_root().owner() == self.spec_root().owner()
        &&& after.spec_root().entries() == mapped_seq(self.spec_root().entries(), to_addr, frames)
        &&& after.spec_measurement().log() == if measured {
            logged_seq(self.spec_measurement().log(), to_addr, frames)
        } else {
            self.spec_measurement().log()
        }
        &&& phys_after == pushed_all(phys, self.spec_root().owner(), frames)
        &&& forall|i: int|
            0 <= i < frames.len() ==> congruent(
                crate::page_table::slot(to_addr, i),
                #[trigger] frames[i],
                T::TOP_LEVEL_ALIGN,
            )
    }

    /// Whether `phys_after` and `e` are what is left of the directory `phys`
    /// when adding `pages` has failed: the pages went in one after the other
    /// up to the first that failed, with `e`.
    pub open spec fn stopped(
        &self,
        phys: PhysPagesView,
        phys_after: PhysPagesView,
        to_addr: u64,
        pages: Seq<Page4k>,
        measured: bool,
        e: Error,
    ) -> bool {
        exists|k: int|
            0 <= k < pages.len() && #[trigger] self.adding_stopped(
                phys,
                phys_after,
                to_addr,
                pages,
                measured,
                k,
                e,
            )
    }

    /// Gives `page` to the host at `gpa`.
    fn add_page(&mut self, phys: &mut PhysPages, gpa: u64, page: Page4k, measured: bool) -> (r:
        Result<(), Error>)
        ensures
            old(self).added_page(*final(self), old(phys)@, final(phys)@, gpa, page, measured, r),
            old(phys)@.wf(),
            final(phys)@.wf(),
    {
        phys.check();
        proof {
            T::lemma_top_level_align();
            Page::<PageSize4k>::lemma_addr(page);
        }
        if measured {
            self.measurement.add_page(gpa, &page);
        }
        let mask = T::TOP_LEVEL_ALIGN - 1;
        if gpa & mask != page.addr().bits() & mask {
            return Err(Error::UnalignedVmPages(page.addr()));
        }
        let owner = self.root.page_owner_id();
        match phys.set_page_owner(page.addr(), owner) {
            Ok(()) => {},
            Err(e) => {
                return Err(Error::SettingOwner(e));
            },
        }
        match self.root.map_page_4k(gpa, page, &mut self.pte_pages) {
            Ok(()) => Ok(()),
            Err(e) => Err(Error::Mapping4kPage(e)),
        }
    }

    /// Gives `pages` to the host at consecutive guest pages from `to_addr`
    /// on, one after the other, and stops at the first page that fails.
    fn add_pages(
        self,
        phys: &mut PhysPages,
        to_addr: AlignedPageAddr4k,
        pages: Vec<Page4k>,
        measured: bool,
    ) -> (r: Result<Self, Error>)
        ensures
            r matches Ok(b) ==> self.added(b, old(phys)@, final(phys)@, to_addr@, pages@, measured),
            r matches Err(e) ==> self.stopped(
                old(phys)@,
                final(phys)@,
                to_addr@,
                pages@,
                measured,
                e,
            ),
            old(phys)@.wf(),
            final(phys)@.wf(),
    {
        phys.check();
        proof {
            lemma_size_4k();
        }
        let ghost phys0 = phys@;
        let ghost all = pages@;
        let ghost frames = crate::page::page_addrs(pages@);
        let ghost mut remaining = pages@;
        let mut rest = reversed(pages);
        let mut builder = self;
        let ghost owner = self.spec_root().owner();
        let mut i: u64 = 0;
        proof {
            assert(frames.take(0) =~= Seq::<u64>::empty());
            assert(logged_seq(self.spec_measurement().log(), to_addr@, frames.take(0))
                =~= self.spec_measurement().log());
        }
        loop
            invariant
                phys0 == old(phys)@,
                phys0.wf(),
                all == pages@,
                frames == crate::page::page_addrs(all),
                rest@ == remaining.reverse(),
                remaining == all.skip(i as int),
                i <= all.len(),
                owner == self.spec_root().owner(),
                builder.spec_root().owner() == owner,
                self.added_all(builder, phys0, phys@, to_addr@, all.take(i as int), measured),
                builder.spec_root().entries() == mapped_seq(
                    self.spec_root().entries(),
                    to_addr@,
                    frames.take(i as int),
                ),
                builder.spec_measurement().log() == if measured {
                    logged_seq(self.spec_measurement().log(), to_addr@, frames.take(i as int))
                } else {
                    self.spec_measurement().log()
                },
                phys@ == pushed_all(phys0, owner, frames.take(i as int)),
                forall|k: int|
                    0 <= k < i ==> congruent(
                        crate::page_table::slot(to_addr@, k),
                        #[trigger] frames[k],
                        T::TOP_LEVEL_ALIGN,
                    ),
                PageSize4k::SIZE_BYTES == PAGE_SIZE_4K,
                phys@.wf(),
            decreases rest@.len(),
        {
            let ghost before = builder;
            let ghost phys_before = phys@;
            let page = match rest.pop() {
                Some(page) => page,
                None => {
                    proof {
                        assert(frames.take(i as int) =~= frames);
                        assert(all.take(i as int) =~= all);
                    }
                    return Ok(builder);
                },
            };
            proof {
                lemma_reverse_step(remaining);
            }
            let gpa = match to_addr.checked_add_pages(i) {
                Some(a) => a.bits(),
                None => {
                    proof {
                        assert(self.adding_stopped(
                            phys0,
                            phys@,
                            to_addr@,
                            all,
                            measured,
                            i as int,
                            Error::InvalidRange,
                        )) by {
                            assert(self.added_all(
                                builder,
                                phys0,
                                phys@,
                                to_addr@,
                                all.take(i as int),
                                measured,
                            ));
                        }
                    }
                    return Err(Error::InvalidRange);
                },
            };
            proof {
                let next = frames.take(i + 1);
                assert(next.drop_last() =~= frames.take(i as int));
                assert(next.last() == remaining[0]@);
                assert(gpa == crate::page_table::slot(to_addr@, i as int));
            }
            match builder.add_page(phys, gpa, page, measured) {
                Ok(()) => {},
                Err(e) => {
                    proof {
                        assert(before.added_page(
                            builder,
                            phys_before,
                            phys@,
                            crate::page_table::slot(to_addr@, i as int),
                            all[i as int],
                            measured,
                            Err(e),
                        ));
                        assert(self.adding_stopped(
                            phys0,
                            phys@,
                            to_addr@,
                            all,
                            measured,
                            i as int,
                            e,
                        ));
                    }
                    return Err(e);
                },
            }
            proof {
                let next = frames.take(i + 1);
                if measured {
                    assert(logged_seq(self.spec_measurement().log(), to_addr@, next) =~= logged_seq(
                        self.spec_measurement().log(),
                        to_addr@,
                        frames.take(i as int),
                    ).push((gpa, next.last())));
                }
                let done = all.take(i + 1);
                assert(done.drop_last() =~= all.take(i as int));
                assert(done.last() == all[i as int]);
                assert(before.added_page(
                    builder,
                    phys_before,
                    phys@,
                    crate::page_table::slot(to_addr@, done.len() - 1),
                    done.last(),
                    measured,
                    Ok(()),
                ));
                assert(self.added_all(builder, phys0, phys@, to_addr@, done, measured));
                remaining = remaining.skip(1);
                assert(remaining =~= all.skip(i + 1));
            }
            i = i + 1;
        }
    }

    /// Adds `pages` to the host at consecutive guest pages from `to_addr`
    /// on, as pages of its initial image: each page is measured, gets the
    /// host as its owner, and is mapped.
    ///
    /// Fails at the first page whose guest address lies beyond the address
    /// space (`InvalidRange`) or does not agree with the frame's address in
    /// the bits below `T::TOP_LEVEL_ALIGN` (`UnalignedVmPages`),
    /// that the directory does not take (`SettingOwner`), or that the page
    /// table does not map (`Mapping4kPage`). The builder is lost then; what
    /// the pages before that one did to the directory stays.
    pub fn add_4k_data_pages(
        self,
        phys: &mut PhysPages,
        to_addr: AlignedPageAddr4k,
        pages: Vec<Page4k>,
    ) -> (r: Result<Self, Error>)
        ensures
            r matches Ok(b) ==> self.added(b, old(phys)@, final(phys)@, to_addr@, pages@, true),
            r matches Err(e) ==> self.stopped(
                old(phys)@,
                final(phys)@,
                to_addr@,
                pages@,
                true,
                e,
            ),
            old(phys)@.wf(),
            final(phys)@.wf(),
    {
        self.add_pages(phys, to_addr, pages, true)
    }

    /// Adds `pages` to the host at consecutive guest pages from `to_addr`
    /// on, as pages of zeroes: each page gets the host as its owner and is
    /// mapped; none is measured. Fails as `add_4k_data_pages` does.
    pub fn add_4k_pages(
        self,
        phys: &mut PhysPages,
        to_addr: AlignedPageAddr4k,
        pages: Vec<Page4k>,
    ) -> (r: Result<Self, Error>)
        ensures
            r matches Ok(b) ==> self.added(b, old(phys)@, final(phys)@, to_addr@, pages@, false),
            r matches Err(e) ==> self.stopped(
                old(phys)@,
                final(phys)@,
                to_addr@,
                pages@,
                false,
                e,
            ),
            old(phys)@.wf(),
            final(phys)@.wf(),
    {
        self.add_pages(phys, to_addr, pages, false)
    }

    /// The pages of the host, with the data pages and the pages of zeroes
    /// that were added.
    pub fn create_host(self) -> (r: HostRootPages<T, D>)
        ensures
            r.spec_inner().spec_root() == self.spec_root(),
            r.spec_inner().spec_measurement() == self.spec_measurement(),
    {
        HostRootPages { inner: VmPages::from_parts(self.root, self.measurement) }
    }
}

} // verus!
